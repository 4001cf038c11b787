//! Stored snapshots: one file per generation, named so that the order of the
//! names is the order of the generations.

use vstd::prelude::*;

use crate::text::{chars_of, decimal, digit_char, padded_decimal, push_padded_decimal, zeros};

verus! {

/// One stored file: its name inside the snapshot directory and its bytes.
#[derive(Debug)]
pub struct SnapshotFile {
    /// The name of the file, without the directory.
    pub name: String,
    /// What the file holds.
    pub contents: Vec<u8>,
}

/// A stored file as plain values.
pub open spec fn file_view(file: SnapshotFile) -> (Seq<char>, Seq<u8>) {
    (file.name@, file.contents@)
}

/// Stored files as plain values.
pub open spec fn files_view(files: Seq<SnapshotFile>) -> Seq<(Seq<char>, Seq<u8>)> {
    Seq::new(files.len(), |i: int| file_view(files[i]))
}

/// The number of digits to which the index in a name is padded.
pub const INDEX_WIDTH: usize = 8;

/// The name of the snapshot of generation `index`: the index in decimal,
/// padded with zeros to a fixed width, between a fixed prefix and the
/// extension of the format.
pub open spec fn snapshot_name(index: nat, extension: Seq<char>) -> Seq<char> {
    "state_"@ + padded_decimal(index, INDEX_WIDTH as nat) + "."@ + extension
}

/// The order of names: character by character, a name that is the start of
/// another coming first.
pub open spec fn name_le(a: Seq<char>, b: Seq<char>) -> bool
    decreases a.len(),
{
    if a.len() == 0 {
        true
    } else if b.len() == 0 {
        false
    } else if a[0] as u32 != b[0] as u32 {
        (a[0] as u32) < (b[0] as u32)
    } else {
        name_le(a.drop_first(), b.drop_first())
    }
}

/// `sorted` with `file` put behind the last entry whose name does not come
/// after its own.
pub open spec fn insert_by_name(
    sorted: Seq<(Seq<char>, Seq<u8>)>,
    file: (Seq<char>, Seq<u8>),
) -> Seq<(Seq<char>, Seq<u8>)>
    decreases sorted.len(),
{
    if sorted.len() == 0 {
        seq![file]
    } else if name_le(sorted.last().0, file.0) {
        sorted.push(file)
    } else {
        insert_by_name(sorted.drop_last(), file).push(sorted.last())
    }
}

/// The files in the order of their names. Files of one name keep the order
/// in which they were given.
pub open spec fn sort_by_name(files: Seq<(Seq<char>, Seq<u8>)>) -> Seq<(Seq<char>, Seq<u8>)>
    decreases files.len(),
{
    if files.len() == 0 {
        Seq::empty()
    } else {
        insert_by_name(sort_by_name(files.drop_last()), files.last())
    }
}

/// Whether names never go down along the sequence.
pub open spec fn is_sorted_by_name(files: Seq<(Seq<char>, Seq<u8>)>) -> bool {
    forall|i: int, j: int| 0 <= i <= j < files.len() ==> name_le(#[trigger] files[i].0, #[trigger] files[j].0)
}

/// Every name comes before or after every other, or both.
pub proof fn lemma_name_le_total(a: Seq<char>, b: Seq<char>)
    ensures
        name_le(a, b) || name_le(b, a),
    decreases a.len(),
{
    if a.len() > 0 && b.len() > 0 && a[0] as u32 == b[0] as u32 {
        lemma_name_le_total(a.drop_first(), b.drop_first());
    }
}

/// A name comes before itself.
pub proof fn lemma_name_le_reflexive(a: Seq<char>)
    ensures
        name_le(a, a),
    decreases a.len(),
{
    if a.len() > 0 {
        lemma_name_le_reflexive(a.drop_first());
    }
}

/// The order of names is transitive.
pub proof fn lemma_name_le_transitive(a: Seq<char>, b: Seq<char>, c: Seq<char>)
    requires
        name_le(a, b),
        name_le(b, c),
    ensures
        name_le(a, c),
    decreases a.len(),
{
    if a.len() > 0 && b.len() > 0 && c.len() > 0 {
        if a[0] as u32 == b[0] as u32 && b[0] as u32 == c[0] as u32 {
            lemma_name_le_transitive(a.drop_first(), b.drop_first(), c.drop_first());
        }
    }
}

/// Names that agree up to a place compare as what follows that place.
pub proof fn lemma_name_le_after_prefix(a: Seq<char>, b: Seq<char>, agree: int)
    requires
        0 <= agree <= a.len(),
        agree <= b.len(),
        a.take(agree) == b.take(agree),
    ensures
        name_le(a, b) == name_le(a.skip(agree), b.skip(agree)),
    decreases agree,
{
    if agree == 0 {
        assert(a.skip(0) =~= a);
        assert(b.skip(0) =~= b);
    } else {
        assert(a[0] == a.take(agree)[0]);
        assert(b[0] == b.take(agree)[0]);
        let ra = a.drop_first();
        let rb = b.drop_first();
        assert(ra.take(agree - 1) =~= a.take(agree).drop_first());
        assert(rb.take(agree - 1) =~= b.take(agree).drop_first());
        lemma_name_le_after_prefix(ra, rb, agree - 1);
        assert(ra.skip(agree - 1) =~= a.skip(agree));
        assert(rb.skip(agree - 1) =~= b.skip(agree));
    }
}

/// Inserting by name is inserting at a place: behind an entry that does not
/// come after the file, before entries that all do.
pub proof fn lemma_insert_by_name_at(
    sorted: Seq<(Seq<char>, Seq<u8>)>,
    file: (Seq<char>, Seq<u8>),
    place: int,
)
    requires
        0 <= place <= sorted.len(),
        place == 0 || name_le(sorted[place - 1].0, file.0),
        forall|k: int| place <= k < sorted.len() ==> !name_le(#[trigger] sorted[k].0, file.0),
    ensures
        insert_by_name(sorted, file) == sorted.insert(place, file),
    decreases sorted.len() - place,
{
    if place == sorted.len() {
        assert(sorted.insert(place, file) =~= sorted.push(file));
        if sorted.len() == 0 {
            assert(sorted.push(file) =~= seq![file]);
        }
    } else {
        let shorter = sorted.drop_last();
        assert(!name_le(sorted[sorted.len() - 1].0, file.0));
        assert forall|k: int| place <= k < shorter.len() implies !name_le(
            #[trigger] shorter[k].0,
            file.0,
        ) by {
            assert(shorter[k] == sorted[k]);
        }
        if place > 0 {
            assert(shorter[place - 1] == sorted[place - 1]);
        }
        lemma_insert_by_name_at(shorter, file, place);
        assert(shorter.insert(place, file).push(sorted.last()) =~= sorted.insert(place, file));
    }
}

/// Inserting by name keeps a sorted sequence sorted, and adds the file and
/// nothing else.
pub proof fn lemma_insert_by_name(sorted: Seq<(Seq<char>, Seq<u8>)>, file: (Seq<char>, Seq<u8>))
    requires
        is_sorted_by_name(sorted),
    ensures
        is_sorted_by_name(insert_by_name(sorted, file)),
        insert_by_name(sorted, file).len() == sorted.len() + 1,
        insert_by_name(sorted, file).to_multiset() == sorted.to_multiset().insert(file),
    decreases sorted.len(),
{
    broadcast use {vstd::seq_lib::to_multiset_build, vstd::seq_lib::group_to_multiset_ensures};

    let result = insert_by_name(sorted, file);
    if sorted.len() == 0 {
        assert(result =~= sorted.push(file));
        assert forall|i: int, j: int| 0 <= i <= j < result.len() implies name_le(
            #[trigger] result[i].0,
            #[trigger] result[j].0,
        ) by {
            lemma_name_le_reflexive(file.0);
        }
    } else if name_le(sorted.last().0, file.0) {
        assert forall|i: int, j: int| 0 <= i <= j < result.len() implies name_le(
            #[trigger] result[i].0,
            #[trigger] result[j].0,
        ) by {
            if j < sorted.len() {
                assert(name_le(sorted[i].0, sorted[j].0));
            } else if i < sorted.len() {
                assert(name_le(sorted[i].0, sorted[sorted.len() - 1].0));
                lemma_name_le_transitive(sorted[i].0, sorted.last().0, file.0);
            } else {
                lemma_name_le_reflexive(file.0);
            }
        }
    } else {
        let shorter = sorted.drop_last();
        assert forall|i: int, j: int| 0 <= i <= j < shorter.len() implies name_le(
            #[trigger] shorter[i].0,
            #[trigger] shorter[j].0,
        ) by {
            assert(name_le(sorted[i].0, sorted[j].0));
        }
        lemma_insert_by_name(shorter, file);
        let inner = insert_by_name(shorter, file);
        lemma_name_le_total(sorted.last().0, file.0);
        assert forall|k: int| 0 <= k < inner.len() implies name_le(
            (#[trigger] inner[k]).0,
            sorted.last().0,
        ) by {
            assert(inner.to_multiset().count(inner[k]) > 0);
            if inner[k] == file {
            } else {
                assert(shorter.to_multiset().count(inner[k]) > 0);
                let at = choose|at: int| 0 <= at < shorter.len() && shorter[at] == inner[k];
                assert(name_le(sorted[at].0, sorted[sorted.len() - 1].0));
            }
        }
        assert forall|i: int, j: int| 0 <= i <= j < result.len() implies name_le(
            #[trigger] result[i].0,
            #[trigger] result[j].0,
        ) by {
            if j < inner.len() {
                assert(name_le(inner[i].0, inner[j].0));
            } else if i < inner.len() {
                assert(name_le(inner[i].0, sorted.last().0));
            } else {
                lemma_name_le_reflexive(sorted.last().0);
            }
        }
        assert(sorted =~= shorter.push(sorted.last()));
        assert(result.to_multiset() =~= sorted.to_multiset().insert(file));
    }
}

/// Sorting by name gives the same files, each as often as before, with
/// names that never go down.
pub proof fn lemma_sort_by_name(files: Seq<(Seq<char>, Seq<u8>)>)
    ensures
        is_sorted_by_name(sort_by_name(files)),
        sort_by_name(files).len() == files.len(),
        sort_by_name(files).to_multiset() == files.to_multiset(),
    decreases files.len(),
{
    broadcast use {vstd::seq_lib::to_multiset_build, vstd::seq_lib::group_to_multiset_ensures};

    if files.len() == 0 {
        assert(sort_by_name(files).to_multiset() =~= files.to_multiset());
    } else {
        let shorter = files.drop_last();
        lemma_sort_by_name(shorter);
        lemma_insert_by_name(sort_by_name(shorter), files.last());
        assert(files =~= shorter.push(files.last()));
    }
}

/// Tells whether name `a` comes before name `b`, or is `b`.
pub fn name_before(a: &str, b: &str) -> (le: bool)
    ensures
        le == name_le(a@, b@),
{
    let left = chars_of(a);
    let right = chars_of(b);
    let mut i: usize = 0;
    assert(left@.take(0) =~= right@.take(0));
    while i < left.len() && i < right.len()
        invariant
            0 <= i <= left.len(),
            i <= right.len(),
            left@ == a@,
            right@ == b@,
            left@.take(i as int) == right@.take(i as int),
        decreases left.len() - i,
    {
        proof {
            lemma_name_le_after_prefix(left@, right@, i as int);
        }
        if left[i] as u32 != right[i] as u32 {
            assert(left@.skip(i as int)[0] == left@[i as int]);
            assert(right@.skip(i as int)[0] == right@[i as int]);
            return (left[i] as u32) < (right[i] as u32);
        }
        proof {
            vstd::utf8::char_u32_cast(left@[i as int], left@[i as int] as u32);
            vstd::utf8::char_u32_cast(right@[i as int], right@[i as int] as u32);
        }
        assert(left@.take(i + 1) =~= right@.take(i + 1)) by {
            assert(left@.take(i + 1) =~= left@.take(i as int).push(left@[i as int]));
            assert(right@.take(i + 1) =~= right@.take(i as int).push(right@[i as int]));
        }
        i += 1;
    }
    proof {
        lemma_name_le_after_prefix(left@, right@, i as int);
    }
    i == left.len()
}

/// The files picked by a sequence of indices.
pub open spec fn picked(files: Seq<SnapshotFile>, order: Seq<usize>) -> Seq<(Seq<char>, Seq<u8>)> {
    Seq::new(order.len(), |k: int| file_view(files[order[k] as int]))
}

/// The order in which to read the files: their indices, sorted by name.
pub fn sorted_order(files: &Vec<SnapshotFile>) -> (order: Vec<usize>)
    ensures
        order@.len() == files@.len(),
        forall|k: int| 0 <= k < order@.len() ==> #[trigger] order@[k] < files@.len(),
        picked(files@, order@) == sort_by_name(files_view(files@)),
{
    let mut order: Vec<usize> = Vec::new();
    let mut n: usize = 0;
    assert(files_view(files@).take(0) =~= Seq::empty());
    assert(picked(files@, order@) =~= sort_by_name(files_view(files@).take(0)));
    while n < files.len()
        invariant
            0 <= n <= files.len(),
            order@.len() == n,
            forall|k: int| 0 <= k < order@.len() ==> #[trigger] order@[k] < files@.len(),
            picked(files@, order@) == sort_by_name(files_view(files@).take(n as int)),
        decreases files.len() - n,
    {
        let ghost sorted = picked(files@, order@);
        let ghost file = file_view(files@[n as int]);
        let mut place: usize = order.len();
        while place > 0 && !name_before(
            files[order[place - 1]].name.as_str(),
            files[n].name.as_str(),
        )
            invariant
                0 <= place <= order@.len(),
                n < files.len(),
                sorted == picked(files@, order@),
                file == file_view(files@[n as int]),
                forall|k: int| 0 <= k < order@.len() ==> #[trigger] order@[k] < files@.len(),
                forall|k: int| place <= k < sorted.len() ==> !name_le(#[trigger] sorted[k].0, file.0),
            decreases place,
        {
            assert(sorted[place - 1] == file_view(files@[order@[place - 1] as int]));
            place -= 1;
        }
        proof {
            if place > 0 {
                assert(sorted[place - 1] == file_view(files@[order@[place - 1] as int]));
            }
            lemma_insert_by_name_at(sorted, file, place as int);
            let before = files_view(files@).take(n as int);
            let after = files_view(files@).take(n + 1);
            assert(after.drop_last() =~= before);
            assert(after.last() == file);
        }
        order.insert(place, n);
        proof {
            assert(picked(files@, order@) =~= sorted.insert(place as int, file));
        }
        n += 1;
    }
    assert(files_view(files@).take(files.len() as int) =~= files_view(files@));
    order
}

/// The name of the snapshot of generation `index`.
pub fn name_of(index: usize, extension: &str) -> (name: String)
    ensures
        name@ == snapshot_name(index as nat, extension@),
{
    let mut name = String::new();
    name.append("state_");
    push_padded_decimal(&mut name, index as u128, INDEX_WIDTH);
    name.append(".");
    name.append(extension);
    assert(name@ =~= snapshot_name(index as nat, extension@));
    name
}

/// A name comes strictly before another.
pub open spec fn name_lt(a: Seq<char>, b: Seq<char>) -> bool {
    name_le(a, b) && !name_le(b, a)
}

/// The last `width` decimal digits of a number, zeros included.
pub open spec fn fixed_decimal(n: nat, width: nat) -> Seq<char>
    decreases width,
{
    if width == 0 {
        Seq::empty()
    } else {
        fixed_decimal(n / 10, (width - 1) as nat).push(digit_char(n % 10))
    }
}

/// Ten to the power of `exponent`.
pub open spec fn pow10(exponent: nat) -> nat
    decreases exponent,
{
    if exponent == 0 {
        1
    } else {
        10 * pow10((exponent - 1) as nat)
    }
}

/// The number of generations whose names sort as the generations follow:
/// those whose index has no more digits than the names are padded to.
pub open spec fn index_limit() -> nat {
    pow10(INDEX_WIDTH as nat)
}

/// The limit in figures.
pub proof fn lemma_index_limit()
    ensures
        index_limit() == 100_000_000,
{
    reveal_with_fuel(pow10, 9);
}

/// A number with no more digits than the width is padded to exactly the
/// width, and the padding is the zeros of its fixed-width form.
pub proof fn lemma_padded_is_fixed(n: nat, width: nat)
    requires
        width >= 1,
        n < pow10(width),
    ensures
        decimal(n).len() <= width,
        padded_decimal(n, width) == fixed_decimal(n, width),
        fixed_decimal(n, width).len() == width,
    decreases width,
{
    reveal_with_fuel(fixed_decimal, 2);
    if width == 1 {
        assert(pow10(1) == 10) by {
            reveal_with_fuel(pow10, 2);
        }
        assert(fixed_decimal(n, 1) =~= seq![digit_char(n)]);
        assert(padded_decimal(n, 1) =~= decimal(n));
    } else {
        let shorter = (width - 1) as nat;
        assert(pow10(width) == 10 * pow10(shorter));
        if n < 10 {
            assert(pow10(shorter) >= 1) by {
                lemma_pow10_positive(shorter);
            }
            lemma_padded_is_fixed(0, shorter);
            assert(decimal(0) =~= seq!['0']);
            assert(zeros(shorter) =~= padded_decimal(0, shorter)) by {
                if shorter == 1 {
                } else {
                    assert(zeros(shorter) =~= zeros((shorter - 1) as nat) + seq!['0']);
                }
            }
            assert(padded_decimal(n, width) =~= zeros(shorter) + decimal(n));
            assert(padded_decimal(n, width) =~= fixed_decimal(n, width));
        } else {
            lemma_padded_is_fixed(n / 10, shorter);
            let head = decimal(n / 10);
            assert(decimal(n) =~= head.push(digit_char(n % 10)));
            if head.len() == shorter {
                assert(padded_decimal(n, width) =~= fixed_decimal(n, width));
            } else {
                assert(zeros((width - decimal(n).len()) as nat) + decimal(n) =~= (zeros(
                    (shorter - head.len()) as nat,
                ) + head).push(digit_char(n % 10)));
                assert(padded_decimal(n, width) =~= fixed_decimal(n, width));
            }
        }
    }
}

/// A power of ten is at least one.
pub proof fn lemma_pow10_positive(exponent: nat)
    ensures
        pow10(exponent) >= 1,
    decreases exponent,
{
    if exponent > 0 {
        lemma_pow10_positive((exponent - 1) as nat);
    }
}

/// Where one name comes strictly before another of the same length, what
/// follows either does not matter.
pub proof fn lemma_name_lt_extends(a: Seq<char>, b: Seq<char>, s: Seq<char>, t: Seq<char>)
    requires
        a.len() == b.len(),
        name_lt(a, b),
    ensures
        name_lt(a + s, b + t),
    decreases a.len(),
{
    if a.len() > 0 {
        assert((a + s)[0] == a[0]);
        assert((b + t)[0] == b[0]);
        if a[0] as u32 == b[0] as u32 {
            lemma_name_lt_extends(a.drop_first(), b.drop_first(), s, t);
            assert((a + s).drop_first() =~= a.drop_first() + s);
            assert((b + t).drop_first() =~= b.drop_first() + t);
        }
    }
}

/// The character of a larger digit has the larger code.
proof fn lemma_digit_codes(d: nat)
    requires
        d < 10,
    ensures
        digit_char(d) as u32 == 0x30 + d,
{
}

/// Among numbers written with the same number of digits, the smaller has
/// the name that comes first.
pub proof fn lemma_fixed_decimal_ordered(i: nat, j: nat, width: nat)
    requires
        i < j < pow10(width),
    ensures
        fixed_decimal(i, width).len() == width,
        fixed_decimal(j, width).len() == width,
        name_lt(fixed_decimal(i, width), fixed_decimal(j, width)),
    decreases width,
{
    if width == 0 {
    } else {
        let shorter = (width - 1) as nat;
        let a = fixed_decimal(i, width);
        let b = fixed_decimal(j, width);
        let head_a = fixed_decimal(i / 10, shorter);
        let head_b = fixed_decimal(j / 10, shorter);
        lemma_fixed_decimal_len(i / 10, shorter);
        lemma_fixed_decimal_len(j / 10, shorter);
        lemma_digit_codes(i % 10);
        lemma_digit_codes(j % 10);
        if i / 10 < j / 10 {
            lemma_fixed_decimal_ordered(i / 10, j / 10, shorter);
            lemma_name_lt_extends(head_a, head_b, seq![digit_char(i % 10)], seq![digit_char(j % 10)]);
            assert(a =~= head_a + seq![digit_char(i % 10)]);
            assert(b =~= head_b + seq![digit_char(j % 10)]);
        } else {
            assert(i / 10 == j / 10);
            assert(a.take(shorter as int) =~= head_a);
            assert(b.take(shorter as int) =~= head_a);
            lemma_name_le_after_prefix(a, b, shorter as int);
            lemma_name_le_after_prefix(b, a, shorter as int);
            let last_a = a.skip(shorter as int);
            let last_b = b.skip(shorter as int);
            assert(last_a =~= seq![digit_char(i % 10)]);
            assert(last_b =~= seq![digit_char(j % 10)]);
            assert(last_a.drop_first() =~= Seq::<char>::empty());
            assert(last_b.drop_first() =~= Seq::<char>::empty());
        }
    }
}

/// A fixed-width decimal has the width.
pub proof fn lemma_fixed_decimal_len(n: nat, width: nat)
    ensures
        fixed_decimal(n, width).len() == width,
    decreases width,
{
    if width > 0 {
        lemma_fixed_decimal_len(n / 10, (width - 1) as nat);
    }
}

/// Below the limit, names sort as their indices: the name of an earlier
/// generation comes strictly before the name of a later one.
pub proof fn lemma_names_ordered(i: nat, j: nat, extension: Seq<char>)
    requires
        i < j < index_limit(),
    ensures
        name_lt(snapshot_name(i, extension), snapshot_name(j, extension)),
{
    let width = INDEX_WIDTH as nat;
    let head = "state_"@;
    let tail = "."@ + extension;
    let a = snapshot_name(i, extension);
    let b = snapshot_name(j, extension);
    lemma_padded_is_fixed(i, width);
    lemma_padded_is_fixed(j, width);
    lemma_fixed_decimal_ordered(i, j, width);
    let da = fixed_decimal(i, width);
    let db = fixed_decimal(j, width);
    lemma_name_lt_extends(da, db, tail, tail);
    assert(a =~= head + (da + tail));
    assert(b =~= head + (db + tail));
    assert(a.take(head.len() as int) =~= head);
    assert(b.take(head.len() as int) =~= head);
    lemma_name_le_after_prefix(a, b, head.len() as int);
    lemma_name_le_after_prefix(b, a, head.len() as int);
    assert(a.skip(head.len() as int) =~= da + tail);
    assert(b.skip(head.len() as int) =~= db + tail);
}

/// Whether names go strictly up along the sequence, so that no two files
/// have one name.
pub open spec fn is_strictly_sorted_by_name(files: Seq<(Seq<char>, Seq<u8>)>) -> bool {
    forall|i: int, j: int| 0 <= i < j < files.len() ==> name_lt(#[trigger] files[i].0, #[trigger] files[j].0)
}

/// There is one way only to put files of different names in the order of
/// their names: a sorted sequence that holds the same files as a strictly
/// sorted one is that sequence.
pub proof fn lemma_sorted_is_unique(
    sorted: Seq<(Seq<char>, Seq<u8>)>,
    strict: Seq<(Seq<char>, Seq<u8>)>,
)
    requires
        is_sorted_by_name(sorted),
        is_strictly_sorted_by_name(strict),
        sorted.to_multiset() == strict.to_multiset(),
    ensures
        sorted == strict,
    decreases strict.len(),
{
    broadcast use {vstd::seq_lib::to_multiset_build, vstd::seq_lib::group_to_multiset_ensures};

    assert(sorted.len() == strict.len()) by {
        vstd::seq_lib::to_multiset_len(sorted);
        vstd::seq_lib::to_multiset_len(strict);
    }
    if strict.len() == 0 {
        assert(sorted =~= strict);
    } else {
        let n = strict.len() as int;
        let x = strict.last();
        let y = sorted.last();
        assert(strict.to_multiset().count(y) > 0) by {
            assert(sorted.to_multiset().count(sorted[n - 1]) > 0);
        }
        assert(sorted.to_multiset().count(x) > 0) by {
            assert(strict.to_multiset().count(strict[n - 1]) > 0);
        }
        let m = choose|m: int| 0 <= m < strict.len() && strict[m] == y;
        let k = choose|k: int| 0 <= k < sorted.len() && sorted[k] == x;
        assert(name_le(sorted[k].0, sorted[n - 1].0));
        if m < n - 1 {
            assert(name_lt(strict[m].0, strict[n - 1].0));
        }
        assert(x == y);
        let shorter_sorted = sorted.drop_last();
        let shorter_strict = strict.drop_last();
        assert(sorted =~= shorter_sorted.push(x));
        assert(strict =~= shorter_strict.push(x));
        assert(shorter_sorted.to_multiset() =~= shorter_strict.to_multiset()) by {
            assert(sorted.to_multiset() == shorter_sorted.to_multiset().insert(x));
            assert(strict.to_multiset() == shorter_strict.to_multiset().insert(x));
            assert forall|f: (Seq<char>, Seq<u8>)|
                shorter_sorted.to_multiset().count(f) == shorter_strict.to_multiset().count(
                    f,
                ) by {
                assert(shorter_sorted.to_multiset().insert(x).count(f)
                    == shorter_strict.to_multiset().insert(x).count(f));
            }
        }
        assert forall|i: int, j: int| 0 <= i <= j < shorter_sorted.len() implies name_le(
            #[trigger] shorter_sorted[i].0,
            #[trigger] shorter_sorted[j].0,
        ) by {
            assert(name_le(sorted[i].0, sorted[j].0));
        }
        assert forall|i: int, j: int| 0 <= i < j < shorter_strict.len() implies name_lt(
            #[trigger] shorter_strict[i].0,
            #[trigger] shorter_strict[j].0,
        ) by {
            assert(name_lt(strict[i].0, strict[j].0));
        }
        lemma_sorted_is_unique(shorter_sorted, shorter_strict);
    }
}

/// Files of different names come out of sorting in one order, in whatever
/// order they go in.
pub proof fn lemma_sort_any_order(
    found: Seq<(Seq<char>, Seq<u8>)>,
    strict: Seq<(Seq<char>, Seq<u8>)>,
)
    requires
        is_strictly_sorted_by_name(strict),
        found.to_multiset() == strict.to_multiset(),
    ensures
        sort_by_name(found) == strict,
{
    lemma_sort_by_name(found);
    lemma_sorted_is_unique(sort_by_name(found), strict);
}

} // verus!
