use crate::bits::{
    agree_on_top, bit_field, bit_length, common_prefix_len, common_prefix_size, extract_bits,
    lemma_agreement_shrinks, lemma_bit_field_monotonic, lemma_bit_field_range,
    lemma_common_prefix_len, num_bits,
};
use crate::data::{keys_of, largest, non_decreasing, positions_of, ModelData};
use crate::model::{Model, ModelDataType, ModelParam, ModelRestriction};
use crate::text::{decimal, decimal_string};
use vstd::arithmetic::power2::{lemma2_to64, lemma_pow2_strictly_increases, pow2};
use vstd::bits::lemma_u64_shl_is_mul;
use vstd::prelude::*;
use vstd::string::StringExecFns;

verus! {

/// A top-layer model without trained state beyond two widths: it maps a key
/// to the field of `bits` bits that follows the `prefix` bits which all
/// keys of the training set share.
#[derive(Clone, Copy, Debug)]
pub struct RadixModel {
    params: (u8, u8),
}

impl View for RadixModel {
    type V = (u8, u8);

    /// The width of the common prefix and the width of the field.
    closed spec fn view(&self) -> (u8, u8) {
        self.params
    }
}

/// The source text that a radix model contributes.
pub open spec fn radix_code() -> Seq<char> {
    "\ninline uint64_t radix(uint64_t prefix_length, uint64_t bits, uint64_t inp) {\n    return (inp << prefix_length) >> (64 - bits);\n}"@
}

impl RadixModel {
    #[verifier::type_invariant]
    spec fn inv(self) -> bool {
        self.params.0 <= 64 && self.params.1 <= 64
    }

    /// The model of a training set: the prefix is what all keys share, and
    /// the field is as wide as the largest position needs. Both are 0 for a
    /// training set without entries.
    pub fn new(data: &ModelData) -> (model: RadixModel)
        ensures
            model@.0 == common_prefix_len(keys_of(data@)),
            model@.1 == bit_length(largest(positions_of(data@))),
            data@.len() == 0 ==> model@ == (0u8, 0u8),
    {
        let n = data.len();
        if n == 0 {
            assert(positions_of(data@).len() == 0);
            return RadixModel { params: (0, 0) };
        }
        let mut largest_value: u64 = 0;
        let mut i: usize = 0;
        while i < n
            invariant
                i <= n,
                n == data@.len(),
                largest_value == largest(positions_of(data@).subrange(0, i as int)),
            decreases n - i,
        {
            let position = data.get(i).1;
            proof {
                let seen = positions_of(data@).subrange(0, i + 1);
                assert(seen.drop_last() =~= positions_of(data@).subrange(0, i as int));
            }
            if position > largest_value {
                largest_value = position;
            }
            i += 1;
        }
        assert(positions_of(data@).subrange(0, n as int) =~= positions_of(data@));
        let bits = num_bits(largest_value);
        let common_prefix = common_prefix_size(data);
        RadixModel { params: (common_prefix, bits) }
    }

    /// The field of the key: a number below `2^bits`.
    pub fn predict_to_int(&self, key: u64) -> (estimate: u64)
        ensures
            estimate == bit_field(key, self@.0 as nat, self@.1 as nat),
            estimate < pow2(self@.1 as nat),
    {
        proof {
            use_type_invariant(self);
        }
        extract_bits(key, self.params.0, self.params.1)
    }
}

impl Model for RadixModel {
    fn input_type(&self) -> (kind: ModelDataType)
        ensures
            kind == ModelDataType::Int,
    {
        ModelDataType::Int
    }

    fn output_type(&self) -> (kind: ModelDataType)
        ensures
            kind == ModelDataType::Int,
    {
        ModelDataType::Int
    }

    fn params(&self) -> (params: Vec<ModelParam>)
        ensures
            params@ == seq![ModelParam::Int(self@.0 as u64), ModelParam::Int(self@.1 as u64)],
    {
        let mut params: Vec<ModelParam> = Vec::new();
        params.push(ModelParam::Int(self.params.0 as u64));
        params.push(ModelParam::Int(self.params.1 as u64));
        assert(params@ =~= seq![ModelParam::Int(self@.0 as u64), ModelParam::Int(self@.1 as u64)]);
        params
    }

    fn code(&self) -> (code: String)
        ensures
            code@ == radix_code(),
    {
        String::from_str(
            "\ninline uint64_t radix(uint64_t prefix_length, uint64_t bits, uint64_t inp) {\n    return (inp << prefix_length) >> (64 - bits);\n}",
        )
    }

    fn function_name(&self) -> (name: String)
        ensures
            name@ == "radix"@,
    {
        String::from_str("radix")
    }

    fn needs_bounds_check(&self) -> (needed: bool)
        ensures
            !needed,
    {
        false
    }

    fn restriction(&self) -> (restriction: ModelRestriction)
        ensures
            restriction == ModelRestriction::MustBeTop,
    {
        ModelRestriction::MustBeTop
    }

    fn error_bound(&self) -> (bound: Option<u64>)
        ensures
            bound.is_none(),
    {
        None
    }
}

/// The fields of the keys of a training set, in order.
pub open spec fn fields_of(entries: Seq<(u64, u64)>, prefix: nat, bits: nat) -> Seq<u64> {
    Seq::new(entries.len(), |i: int| bit_field(entries[i].0, prefix, bits))
}

/// The index of the first field from `start` on that is at least `slot`,
/// and the number of fields if there is none.
pub open spec fn first_at_least_from(fields: Seq<u64>, slot: int, start: int) -> int
    decreases fields.len() - start,
{
    if start >= fields.len() {
        fields.len() as int
    } else if fields[start] >= slot {
        start
    } else {
        first_at_least_from(fields, slot, start + 1)
    }
}

/// The index of the first field that is at least `slot`, and the number of
/// fields if there is none.
pub open spec fn first_at_least(fields: Seq<u64>, slot: int) -> int {
    first_at_least_from(fields, slot, 0)
}

/// The entry of a hint table at `slot`.
///
/// Above slot 0 it is the position of the first entry of the training set
/// whose field is `slot` or more, cut to 32 bits, and the length of the
/// table if there is no such entry. Slot 0 holds the position of the first
/// entry where the field of that entry is 0, and 0 otherwise; with sorted
/// keys, a field of 0 occurs first or not at all.
pub open spec fn hint_entry(entries: Seq<(u64, u64)>, prefix: nat, bits: nat, slot: int) -> u32 {
    let fields = fields_of(entries, prefix, bits);
    let first = first_at_least(fields, slot);
    if slot == 0 {
        if entries.len() > 0 && fields[0] == 0 {
            entries[0].1 as u32
        } else {
            0
        }
    } else if first < entries.len() {
        entries[first].1 as u32
    } else {
        pow2(bits) as u32
    }
}

/// The hint table of a training set: `2^bits` entries, one for each value
/// of the field.
pub open spec fn hint_table_of(entries: Seq<(u64, u64)>, prefix: nat, bits: nat) -> Seq<u32> {
    Seq::new(pow2(bits), |slot: int| hint_entry(entries, prefix, bits, slot))
}

/// What `first_at_least_from` finds: no field between `start` and the
/// result is as large as `slot`, and the field at the result is.
pub proof fn lemma_first_at_least(fields: Seq<u64>, slot: int, start: int)
    requires
        0 <= start <= fields.len(),
    ensures
        start <= first_at_least_from(fields, slot, start) <= fields.len(),
        forall|k: int| start <= k < first_at_least_from(fields, slot, start) ==> fields[k] < slot,
        first_at_least_from(fields, slot, start) < fields.len() ==> fields[first_at_least_from(
            fields,
            slot,
            start,
        )] >= slot,
    decreases fields.len() - start,
{
    if start < fields.len() && fields[start] < slot {
        lemma_first_at_least(fields, slot, start + 1);
    }
}

/// The index with these two properties is what `first_at_least_from`
/// finds.
pub proof fn lemma_first_at_least_is(fields: Seq<u64>, slot: int, start: int, found: int)
    requires
        0 <= start <= found <= fields.len(),
        forall|k: int| start <= k < found ==> fields[k] < slot,
        found < fields.len() ==> fields[found] >= slot,
    ensures
        first_at_least_from(fields, slot, start) == found,
    decreases found - start,
{
    if start < found {
        lemma_first_at_least_is(fields, slot, start + 1, found);
    }
}

/// A larger slot is first reached no earlier than a smaller one.
pub proof fn lemma_first_at_least_monotonic(fields: Seq<u64>, low: int, high: int)
    requires
        low <= high,
    ensures
        first_at_least(fields, low) <= first_at_least(fields, high),
{
    lemma_first_at_least(fields, low, 0);
    lemma_first_at_least(fields, high, 0);
}

/// The fields of a training set with sorted keys never decrease, where the
/// prefix is one that all keys share.
pub proof fn lemma_fields_non_decreasing(entries: Seq<(u64, u64)>, prefix: nat, bits: nat)
    requires
        non_decreasing(keys_of(entries)),
        prefix <= common_prefix_len(keys_of(entries)),
        bits <= 64,
    ensures
        non_decreasing(fields_of(entries, prefix, bits)),
{
    let keys = keys_of(entries);
    let fields = fields_of(entries, prefix, bits);
    assert forall|i: int, j: int| 0 <= i <= j < fields.len() implies fields[i] <= fields[j] by {
        lemma_common_prefix_len(keys);
        assert(agree_on_top(keys[i], keys[j], common_prefix_len(keys)));
        lemma_agreement_shrinks(keys[i], keys[j], prefix, common_prefix_len(keys));
        lemma_bit_field_monotonic(keys[i], keys[j], prefix, bits);
    }
}

/// Whether some entry has the largest field that `bits` bits can hold, so
/// that no slot lies behind the largest field.
pub open spec fn last_slot_observed(entries: Seq<(u64, u64)>, prefix: nat, bits: nat) -> bool {
    exists|i: int|
        0 <= i < entries.len() && #[trigger] bit_field(entries[i].0, prefix, bits) == pow2(bits) - 1
}

/// Whether no entry of a table is larger than the length of the table.
pub open spec fn within_length(table: Seq<u32>) -> bool {
    forall|slot: int| 0 <= slot < table.len() ==> table[slot] <= table.len()
}

/// The entries of a hint table never decrease from one slot to the next,
/// where the positions of the training set never decrease and fit 32 bits,
/// and where no slot lies behind the largest field or no entry of the table
/// is larger than its length.
pub proof fn lemma_hint_table_non_decreasing(entries: Seq<(u64, u64)>, prefix: nat, bits: nat)
    requires
        bits <= MAX_TABLE_BITS,
        non_decreasing(positions_of(entries)),
        forall|i: int| 0 <= i < entries.len() ==> (#[trigger] entries[i]).1 <= u32::MAX,
        last_slot_observed(entries, prefix, bits) || within_length(
            hint_table_of(entries, prefix, bits),
        ),
    ensures
        ({
            let table = hint_table_of(entries, prefix, bits);
            forall|low: int, high: int|
                0 <= low <= high < table.len() ==> table[low] <= table[high]
        }),
{
    let table = hint_table_of(entries, prefix, bits);
    let fields = fields_of(entries, prefix, bits);
    let positions = positions_of(entries);
    lemma2_to64();
    if bits < 31 {
        lemma_pow2_strictly_increases(bits, 31);
    }
    assert forall|low: int, high: int| 0 <= low <= high < table.len() implies table[low]
        <= table[high] by {
        lemma_first_at_least_monotonic(fields, low, high);
        lemma_first_at_least(fields, low, 0);
        lemma_first_at_least(fields, high, 0);
        let a = first_at_least(fields, low);
        let b = first_at_least(fields, high);
        if low < high || low > 0 {
            if b < entries.len() {
                assert(positions[0] <= positions[b]);
                assert(positions[a] <= positions[b]);
            } else if last_slot_observed(entries, prefix, bits) {
                let i = choose|i: int|
                    0 <= i < entries.len() && #[trigger] bit_field(entries[i].0, prefix, bits)
                        == pow2(bits) - 1;
                assert(fields[i] >= high);
            } else {
                assert(table[low] <= table.len());
            }
        }
    }
}

/// The hint of an entry is no larger than its position, where the
/// positions of the training set never decrease and fit 32 bits.
pub proof fn lemma_hint_is_lower_bound(
    entries: Seq<(u64, u64)>,
    prefix: nat,
    bits: nat,
    index: int,
)
    requires
        bits <= MAX_TABLE_BITS,
        non_decreasing(positions_of(entries)),
        forall|i: int| 0 <= i < entries.len() ==> (#[trigger] entries[i]).1 <= u32::MAX,
        0 <= index < entries.len(),
    ensures
        ({
            let field = bit_field(entries[index].0, prefix, bits);
            &&& field < pow2(bits)
            &&& hint_table_of(entries, prefix, bits)[field as int] <= entries[index].1
        }),
{
    let fields = fields_of(entries, prefix, bits);
    let positions = positions_of(entries);
    let field = fields[index];
    lemma_bit_field_range(entries[index].0, prefix, bits);
    lemma_first_at_least(fields, field as int, 0);
    let first = first_at_least(fields, field as int);
    assert(first <= index);
    assert(positions[first] <= positions[index]);
    assert(positions[0] <= positions[index]);
}

/// In the hint table of a training set with sorted keys, the slot of a
/// field that occurs holds the position of the first entry with that
/// field, cut to 32 bits.
pub proof fn lemma_hint_table_first_occurrence(
    entries: Seq<(u64, u64)>,
    bits: nat,
    index: int,
)
    requires
        bits <= MAX_TABLE_BITS,
        non_decreasing(keys_of(entries)),
        0 <= index < entries.len(),
        forall|k: int|
            0 <= k < index ==> bit_field(
                (#[trigger] entries[k]).0,
                common_prefix_len(keys_of(entries)),
                bits,
            ) != bit_field(entries[index].0, common_prefix_len(keys_of(entries)), bits),
    ensures
        ({
            let prefix = common_prefix_len(keys_of(entries));
            let field = bit_field(entries[index].0, prefix, bits);
            &&& field < pow2(bits)
            &&& hint_table_of(entries, prefix, bits)[field as int] == entries[index].1 as u32
        }),
{
    let prefix = common_prefix_len(keys_of(entries));
    let fields = fields_of(entries, prefix, bits);
    let field = fields[index];
    lemma_bit_field_range(entries[index].0, prefix, bits);
    lemma_fields_non_decreasing(entries, prefix, bits);
    assert forall|k: int| 0 <= k < index implies fields[k] < field by {
        assert(fields[k] <= fields[index]);
        assert(fields[k] == bit_field(entries[k].0, prefix, bits));
    }
    if field > 0 {
        lemma_first_at_least_is(fields, field as int, 0, index);
    } else if index > 0 {
        assert(fields[0] < field);
    }
}

/// Slot 0 of a hint table holds 0 where no entry has field 0.
pub proof fn lemma_hint_table_unused_slot_zero(entries: Seq<(u64, u64)>, prefix: nat, bits: nat)
    requires
        forall|i: int|
            0 <= i < entries.len() ==> #[trigger] bit_field(entries[i].0, prefix, bits) != 0,
    ensures
        hint_entry(entries, prefix, bits, 0) == 0,
{
    if entries.len() > 0 {
        assert(bit_field(entries[0].0, prefix, bits) != 0);
    }
}

/// What a hint table is: the widths of prefix and field, and one entry for
/// each value of the field.
pub struct RadixTableView {
    pub prefix_bits: u8,
    pub table_bits: u8,
    pub hint_table: Seq<u32>,
}

/// A model that looks up a coarse position for the field of a key.
#[derive(Debug)]
pub struct RadixTable {
    prefix_bits: u8,
    table_bits: u8,
    hint_table: Vec<u32>,
}

impl View for RadixTable {
    type V = RadixTableView;

    closed spec fn view(&self) -> RadixTableView {
        RadixTableView {
            prefix_bits: self.prefix_bits,
            table_bits: self.table_bits,
            hint_table: self.hint_table@,
        }
    }
}

/// The widest field of a hint table: the length of the table must fit an
/// entry of 32 bits.
pub const MAX_TABLE_BITS: u8 = 31;

/// The source text that a hint table contributes, for the sum `width` of
/// its two widths.
pub open spec fn radix_table_code(width: nat) -> Seq<char> {
    "\ninline uint64_t radix_table(uint64_t prefix_length, uint32_t* table, uint64_t inp) {\n    return table[((inp << prefix_length) >> prefix_length) >> (64 - "@
        + decimal(width) + ")];\n}"@
}

/// The number of entries of a hint table, `2^bits`.
fn table_len(bits: u8) -> (len: usize)
    requires
        bits <= MAX_TABLE_BITS,
    ensures
        len == pow2(bits as nat),
        1 <= len <= 0x8000_0000,
{
    proof {
        lemma2_to64();
        if bits < 31 {
            lemma_pow2_strictly_increases(bits as nat, 31);
        }
        lemma_u64_shl_is_mul(1, bits as u64);
    }
    (1u64 << (bits as u64)) as usize
}

impl RadixTable {
    #[verifier::type_invariant]
    spec fn inv(self) -> bool {
        &&& self.table_bits <= MAX_TABLE_BITS
        &&& self.prefix_bits + self.table_bits <= 64
        &&& self.hint_table@.len() == pow2(self.table_bits as nat)
    }

    /// The hint table of a training set for a field of `bits` bits behind
    /// the prefix that all keys share.
    ///
    /// Walking the training set, the first entry, and after it each entry
    /// whose field is larger than all before it, gives its position to the
    /// slot of its field and to the slots above 0 that were skipped since
    /// the last such entry. A slot 0 that no entry gives to keeps 0, and the
    /// slots behind the largest field get the length of the table.
    pub fn new(data: &ModelData, bits: u8) -> (table: RadixTable)
        requires
            bits <= MAX_TABLE_BITS,
            common_prefix_len(keys_of(data@)) + bits <= 64,
        ensures
            table@.prefix_bits == common_prefix_len(keys_of(data@)),
            table@.table_bits == bits,
            table@.hint_table == hint_table_of(data@, table@.prefix_bits as nat, bits as nat),
    {
        let prefix = common_prefix_size(data);
        let len = table_len(bits);
        let mut hint_table: Vec<u32> = Vec::new();
        let mut s: usize = 0;
        while s < len
            invariant
                s <= len,
                hint_table@.len() == s,
                forall|k: int| 0 <= k < s ==> hint_table@[k] == 0,
            decreases len - s,
        {
            hint_table.push(0);
            s += 1;
        }
        let ghost fields = fields_of(data@, prefix as nat, bits as nat);
        let n = data.len();
        let mut last_radix: usize = 0;
        let mut i: usize = 0;
        while i < n
            invariant
                i <= n,
                n == data@.len(),
                bits <= MAX_TABLE_BITS,
                len == pow2(bits as nat),
                len <= 0x8000_0000,
                hint_table@.len() == len,
                fields == fields_of(data@, prefix as nat, bits as nat),
                last_radix < len,
                i == 0 ==> last_radix == 0 && hint_table@[0] == 0,
                i > 0 ==> hint_table@[0] == hint_entry(data@, prefix as nat, bits as nat, 0),
                forall|k: int| 0 <= k < i ==> fields[k] <= last_radix,
                forall|slot: int|
                    1 <= slot <= last_radix ==> #[trigger] hint_table@[slot] == hint_entry(
                        data@,
                        prefix as nat,
                        bits as nat,
                        slot,
                    ),
            decreases n - i,
        {
            let (key, position) = data.get(i);
            let current = extract_bits(key, prefix, bits) as usize;
            assert(current == fields[i as int]);
            let hint = #[verifier::truncate] (position as u32);
            if current > last_radix {
                let ghost slot_zero = hint_table@[0];
                let mut slot: usize = last_radix + 1;
                while slot <= current
                    invariant
                        last_radix < slot <= current + 1,
                        current < len,
                        i < n,
                        n == data@.len(),
                        hint_table@.len() == len,
                        fields == fields_of(data@, prefix as nat, bits as nat),
                        current == fields[i as int],
                        hint == data@[i as int].1 as u32,
                        hint_table@[0] == slot_zero,
                        forall|k: int| 0 <= k < i ==> fields[k] <= last_radix,
                        forall|t: int|
                            1 <= t < slot ==> #[trigger] hint_table@[t] == hint_entry(
                                data@,
                                prefix as nat,
                                bits as nat,
                                t,
                            ),
                    decreases current + 1 - slot,
                {
                    hint_table[slot] = hint;
                    proof {
                        lemma_first_at_least_is(fields, slot as int, 0, i as int);
                    }
                    slot += 1;
                }
                last_radix = current;
            } else if i == 0 {
                hint_table[0] = hint;
            }
            i += 1;
        }
        let mut slot: usize = last_radix + 1;
        while slot < len
            invariant
                last_radix < slot,
                n == data@.len(),
                len == pow2(bits as nat),
                len <= 0x8000_0000,
                hint_table@.len() == len,
                fields == fields_of(data@, prefix as nat, bits as nat),
                hint_table@[0] == hint_entry(data@, prefix as nat, bits as nat, 0),
                forall|k: int| 0 <= k < n ==> fields[k] <= last_radix,
                forall|t: int|
                    1 <= t < slot && t < len ==> #[trigger] hint_table@[t] == hint_entry(
                        data@,
                        prefix as nat,
                        bits as nat,
                        t,
                    ),
            decreases len - slot,
        {
            hint_table[slot] = len as u32;
            proof {
                lemma_first_at_least_is(fields, slot as int, 0, n as int);
            }
            slot += 1;
        }
        assert(hint_table@ =~= hint_table_of(data@, prefix as nat, bits as nat));
        RadixTable { prefix_bits: prefix, table_bits: bits, hint_table }
    }

    /// The entry of the table for the field of the key.
    pub fn predict_to_int(&self, key: u64) -> (estimate: u64)
        ensures
            bit_field(key, self@.prefix_bits as nat, self@.table_bits as nat)
                < self@.hint_table.len(),
            estimate == self@.hint_table[bit_field(
                key,
                self@.prefix_bits as nat,
                self@.table_bits as nat,
            ) as int],
    {
        proof {
            use_type_invariant(self);
        }
        let field = extract_bits(key, self.prefix_bits, self.table_bits);
        let len = self.hint_table.len();
        assert(field < len);
        self.hint_table[field as usize] as u64
    }
}

impl Model for RadixTable {
    fn input_type(&self) -> (kind: ModelDataType)
        ensures
            kind == ModelDataType::Int,
    {
        ModelDataType::Int
    }

    fn output_type(&self) -> (kind: ModelDataType)
        ensures
            kind == ModelDataType::Int,
    {
        ModelDataType::Int
    }

    fn params(&self) -> (params: Vec<ModelParam>)
        ensures
            params@.len() == 2,
            params@[0] == ModelParam::Int(self@.prefix_bits as u64),
            params@[1] matches ModelParam::Int32Array(table) && table@ == self@.hint_table,
    {
        let mut table: Vec<u32> = Vec::new();
        let n = self.hint_table.len();
        let mut i: usize = 0;
        while i < n
            invariant
                i <= n,
                n == self.hint_table@.len(),
                table@ == self.hint_table@.subrange(0, i as int),
            decreases n - i,
        {
            table.push(self.hint_table[i]);
            assert(table@ =~= self.hint_table@.subrange(0, i + 1));
            i += 1;
        }
        assert(self.hint_table@.subrange(0, n as int) =~= self.hint_table@);
        let mut params: Vec<ModelParam> = Vec::new();
        params.push(ModelParam::Int(self.prefix_bits as u64));
        params.push(ModelParam::Int32Array(table));
        params
    }

    fn code(&self) -> (code: String)
        ensures
            code@ == radix_table_code((self@.prefix_bits + self@.table_bits) as nat),
    {
        proof {
            use_type_invariant(self);
        }
        let width = decimal_string((self.prefix_bits + self.table_bits) as u64);
        String::from_str(
            "\ninline uint64_t radix_table(uint64_t prefix_length, uint32_t* table, uint64_t inp) {\n    return table[((inp << prefix_length) >> prefix_length) >> (64 - ",
        ).concat(width.as_str()).concat(")];\n}")
    }

    fn function_name(&self) -> (name: String)
        ensures
            name@ == "radix_table"@,
    {
        String::from_str("radix_table")
    }

    fn needs_bounds_check(&self) -> (needed: bool)
        ensures
            !needed,
    {
        false
    }

    fn restriction(&self) -> (restriction: ModelRestriction)
        ensures
            restriction == ModelRestriction::Unrestricted,
    {
        ModelRestriction::Unrestricted
    }

    fn error_bound(&self) -> (bound: Option<u64>)
        ensures
            bound.is_none(),
    {
        None
    }
}

} // verus!
