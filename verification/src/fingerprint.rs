//! Checksums: the content checksum of a file and the fingerprint of a list of
//! column names, which ignores order, letter case and punctuation.

use vstd::prelude::*;
use vstd::seq_lib::{group_to_multiset_ensures, lemma_sorted_unique};
use vstd::utf8::encode_utf8;
use crate::text::{
    join_strings, join_texts, lemma_text_le_total_ordering, lowercase_of, push_char, sort_strings,
    text_leq, texts, to_lowercase,
};

verus! {

/// The CRC-32 checksum of a byte sequence.
pub uninterp spec fn crc32_of(bytes: Seq<u8>) -> u32;

/// `crc32fast::hash`: the CRC-32 checksum of the bytes, a function of the
/// bytes alone.
#[verifier::external_body]
fn crc32(data: &[u8]) -> (sum: u32)
    ensures
        sum == crc32_of(data@),
{
    crc32fast::hash(data)
}

/// Whether a character is a letter or a number.
pub uninterp spec fn is_alphanumeric_char(c: char) -> bool;

/// `char::is_alphanumeric`.
#[verifier::external_body]
fn is_alphanumeric(c: char) -> (r: bool)
    ensures
        r == is_alphanumeric_char(c),
{
    c.is_alphanumeric()
}

/// The alphanumeric characters of `s`, in order.
pub open spec fn keep_alphanumeric(s: Seq<char>) -> Seq<char>
    decreases s.len(),
{
    if s.len() == 0 {
        s
    } else if is_alphanumeric_char(s.last()) {
        keep_alphanumeric(s.drop_last()).push(s.last())
    } else {
        keep_alphanumeric(s.drop_last())
    }
}

/// A column name in normal form: lower case, alphanumeric characters only.
pub open spec fn normalized_name(name: Seq<char>) -> Seq<char> {
    keep_alphanumeric(lowercase_of(name))
}

/// The normal forms of the names, in order, without the empty ones.
pub open spec fn normalized_names(columns: Seq<Seq<char>>) -> Seq<Seq<char>>
    decreases columns.len(),
{
    if columns.len() == 0 {
        Seq::empty()
    } else if normalized_name(columns.last()).len() > 0 {
        normalized_names(columns.drop_last()).push(normalized_name(columns.last()))
    } else {
        normalized_names(columns.drop_last())
    }
}

/// The text that is checksummed: the normalized names, sorted and joined by
/// commas.
pub open spec fn canonical_schema(columns: Seq<Seq<char>>) -> Seq<char> {
    join_texts(normalized_names(columns).sort_by(text_leq()), seq![','])
}

/// The fingerprint of a column list.
pub open spec fn fingerprint(columns: Seq<Seq<char>>) -> u32 {
    crc32_of(encode_utf8(canonical_schema(columns)))
}

proof fn lemma_normalized_names_concat(a: Seq<Seq<char>>, b: Seq<Seq<char>>)
    ensures
        normalized_names(a + b) == normalized_names(a) + normalized_names(b),
    decreases b.len(),
{
    if b.len() == 0 {
        assert(a + b =~= a);
        assert(normalized_names(a) + normalized_names(b) =~= normalized_names(a));
    } else {
        assert((a + b).drop_last() =~= a + b.drop_last());
        assert((a + b).last() == b.last());
        lemma_normalized_names_concat(a, b.drop_last());
        let rest = normalized_names(b.drop_last());
        if normalized_name(b.last()).len() > 0 {
            assert((normalized_names(a) + rest).push(normalized_name(b.last()))
                =~= normalized_names(a) + rest.push(normalized_name(b.last())));
        }
    }
}

/// What one more name, put anywhere into the list, adds to the normalized
/// names: its normal form once, or nothing if that is empty.
proof fn lemma_normalized_insert(s: Seq<Seq<char>>, k: int, x: Seq<char>)
    requires
        0 <= k <= s.len(),
    ensures
        normalized_name(x).len() > 0 ==> normalized_names(s.insert(k, x)).to_multiset()
            == normalized_names(s).to_multiset().insert(normalized_name(x)),
        normalized_name(x).len() == 0 ==> normalized_names(s.insert(k, x)) == normalized_names(s),
{
    broadcast use group_to_multiset_ensures;

    let a = s.take(k);
    let b = s.skip(k);
    let one = seq![x];
    assert(s.insert(k, x) =~= (a + one) + b);
    assert(s =~= a + b);
    lemma_normalized_names_concat(a + one, b);
    lemma_normalized_names_concat(a, one);
    lemma_normalized_names_concat(a, b);
    assert(one.drop_last() =~= Seq::<Seq<char>>::empty());
    assert(one.last() == x);
    assert(normalized_names(one.drop_last()) =~= Seq::<Seq<char>>::empty());
    let na = normalized_names(a);
    let nb = normalized_names(b);
    if normalized_name(x).len() > 0 {
        assert(normalized_names(one) =~= seq![normalized_name(x)]);
        assert((na + seq![normalized_name(x)]) + nb =~= (na + nb).insert(
            na.len() as int,
            normalized_name(x),
        ));
    } else {
        assert(normalized_names(one) =~= Seq::<Seq<char>>::empty());
        assert((na + Seq::<Seq<char>>::empty()) + nb =~= na + nb);
    }
}

/// Lists with the same names, whatever their order, have the same normalized
/// names up to order.
proof fn lemma_normalized_multiset(c1: Seq<Seq<char>>, c2: Seq<Seq<char>>)
    requires
        c1.to_multiset() == c2.to_multiset(),
    ensures
        normalized_names(c1).to_multiset() == normalized_names(c2).to_multiset(),
    decreases c1.len(),
{
    broadcast use group_to_multiset_ensures;

    if c1.len() == 0 {
        assert(c1.to_multiset().len() == c1.len());
        assert(c2.to_multiset().len() == c2.len());
        assert(c1 =~= c2);
    } else {
        let x = c1.last();
        let c1p = c1.drop_last();
        assert(c1 =~= c1p.push(x));
        assert(c1.to_multiset().count(x) > 0);
        assert(c2.contains(x));
        let k = choose|k: int| 0 <= k < c2.len() && c2[k] == x;
        let c2p = c2.remove(k);
        assert(c1p.to_multiset() =~= c2p.to_multiset());
        lemma_normalized_multiset(c1p, c2p);
        assert(c2 =~= c2p.insert(k, x));
        assert(c1 =~= c1p.insert(c1p.len() as int, x));
        lemma_normalized_insert(c2p, k, x);
        lemma_normalized_insert(c1p, c1p.len() as int, x);
    }
}

/// The fingerprint does not depend on the order of the columns: two lists
/// that hold the same names the same number of times have the same
/// fingerprint.
pub proof fn lemma_fingerprint_ignores_order(c1: Seq<Seq<char>>, c2: Seq<Seq<char>>)
    requires
        c1.to_multiset() == c2.to_multiset(),
    ensures
        fingerprint(c1) == fingerprint(c2),
{
    lemma_normalized_multiset(c1, c2);
    lemma_text_le_total_ordering();
    normalized_names(c1).lemma_sort_by_ensures(text_leq());
    normalized_names(c2).lemma_sort_by_ensures(text_leq());
    lemma_sorted_unique(
        normalized_names(c1).sort_by(text_leq()),
        normalized_names(c2).sort_by(text_leq()),
        text_leq(),
    );
}

/// A name whose normal form is empty, such as one made of blanks or
/// punctuation only, can be put anywhere into the list without changing the
/// fingerprint.
pub proof fn lemma_fingerprint_ignores_blank_names(
    columns: Seq<Seq<char>>,
    at: int,
    name: Seq<char>,
)
    requires
        0 <= at <= columns.len(),
        normalized_name(name).len() == 0,
    ensures
        fingerprint(columns.insert(at, name)) == fingerprint(columns),
{
    lemma_normalized_insert(columns, at, name);
}

/// The character for a hexadecimal digit, lower case.
pub open spec fn hex_digit(d: int) -> char {
    if d == 0 {
        '0'
    } else if d == 1 {
        '1'
    } else if d == 2 {
        '2'
    } else if d == 3 {
        '3'
    } else if d == 4 {
        '4'
    } else if d == 5 {
        '5'
    } else if d == 6 {
        '6'
    } else if d == 7 {
        '7'
    } else if d == 8 {
        '8'
    } else if d == 9 {
        '9'
    } else if d == 10 {
        'a'
    } else if d == 11 {
        'b'
    } else if d == 12 {
        'c'
    } else if d == 13 {
        'd'
    } else if d == 14 {
        'e'
    } else {
        'f'
    }
}

/// A checksum written as eight hexadecimal digits, lower case, most
/// significant first.
pub open spec fn hex8(value: u32) -> Seq<char> {
    seq![
        hex_digit((value / 0x1000_0000 % 16) as int),
        hex_digit((value / 0x100_0000 % 16) as int),
        hex_digit((value / 0x10_0000 % 16) as int),
        hex_digit((value / 0x1_0000 % 16) as int),
        hex_digit((value / 0x1000 % 16) as int),
        hex_digit((value / 0x100 % 16) as int),
        hex_digit((value / 0x10 % 16) as int),
        hex_digit((value % 16) as int),
    ]
}

/// The character for a hexadecimal digit.
fn hex_char(d: u32) -> (c: char)
    requires
        d < 16,
    ensures
        c == hex_digit(d as int),
{
    if d == 0 {
        '0'
    } else if d == 1 {
        '1'
    } else if d == 2 {
        '2'
    } else if d == 3 {
        '3'
    } else if d == 4 {
        '4'
    } else if d == 5 {
        '5'
    } else if d == 6 {
        '6'
    } else if d == 7 {
        '7'
    } else if d == 8 {
        '8'
    } else if d == 9 {
        '9'
    } else if d == 10 {
        'a'
    } else if d == 11 {
        'b'
    } else if d == 12 {
        'c'
    } else if d == 13 {
        'd'
    } else if d == 14 {
        'e'
    } else {
        'f'
    }
}

/// Writes a checksum as eight hexadecimal digits.
pub fn format_checksum(value: u32) -> (r: String)
    ensures
        r@ == hex8(value),
{
    let mut out = String::new();
    push_char(&mut out, hex_char(value / 0x1000_0000 % 16));
    push_char(&mut out, hex_char(value / 0x100_0000 % 16));
    push_char(&mut out, hex_char(value / 0x10_0000 % 16));
    push_char(&mut out, hex_char(value / 0x1_0000 % 16));
    push_char(&mut out, hex_char(value / 0x1000 % 16));
    push_char(&mut out, hex_char(value / 0x100 % 16));
    push_char(&mut out, hex_char(value / 0x10 % 16));
    push_char(&mut out, hex_char(value % 16));
    assert(out@ =~= hex8(value));
    out
}

/// The content checksum of a file, as text.
pub fn calculate_crc32(data: &[u8]) -> (r: String)
    ensures
        r@ == hex8(crc32_of(data@)),
{
    format_checksum(crc32(data))
}

/// A name whose lower-case form holds no alphanumeric character has the
/// empty normal form.
pub proof fn lemma_no_alphanumeric_no_normal_form(name: Seq<char>)
    requires
        forall|i: int|
            0 <= i < lowercase_of(name).len() ==> !is_alphanumeric_char(
                #[trigger] lowercase_of(name)[i],
            ),
    ensures
        normalized_name(name).len() == 0,
{
    lemma_keep_alphanumeric_of_none(lowercase_of(name));
}

proof fn lemma_keep_alphanumeric_of_none(s: Seq<char>)
    requires
        forall|i: int| 0 <= i < s.len() ==> !is_alphanumeric_char(#[trigger] s[i]),
    ensures
        keep_alphanumeric(s).len() == 0,
    decreases s.len(),
{
    if s.len() > 0 {
        assert(!is_alphanumeric_char(s[s.len() - 1]));
        assert forall|i: int| 0 <= i < s.drop_last().len() implies !is_alphanumeric_char(
            #[trigger] s.drop_last()[i],
        ) by {
            assert(s.drop_last()[i] == s[i]);
        }
        lemma_keep_alphanumeric_of_none(s.drop_last());
    }
}

/// The names that have a non-empty normal form, in order.
pub open spec fn without_blank_names(columns: Seq<Seq<char>>) -> Seq<Seq<char>>
    decreases columns.len(),
{
    if columns.len() == 0 {
        Seq::empty()
    } else if normalized_name(columns.last()).len() > 0 {
        without_blank_names(columns.drop_last()).push(columns.last())
    } else {
        without_blank_names(columns.drop_last())
    }
}

proof fn lemma_normalized_without_blank(columns: Seq<Seq<char>>)
    ensures
        normalized_names(without_blank_names(columns)) == normalized_names(columns),
    decreases columns.len(),
{
    if columns.len() > 0 {
        lemma_normalized_without_blank(columns.drop_last());
        if normalized_name(columns.last()).len() > 0 {
            let kept = without_blank_names(columns.drop_last());
            assert(kept.push(columns.last()).drop_last() =~= kept);
            assert(kept.push(columns.last()).last() == columns.last());
        }
    }
}

proof fn lemma_without_blank_concat(a: Seq<Seq<char>>, b: Seq<Seq<char>>)
    ensures
        without_blank_names(a + b) == without_blank_names(a) + without_blank_names(b),
    decreases b.len(),
{
    if b.len() == 0 {
        assert(a + b =~= a);
        assert(without_blank_names(a) + without_blank_names(b) =~= without_blank_names(a));
    } else {
        assert((a + b).drop_last() =~= a + b.drop_last());
        assert((a + b).last() == b.last());
        lemma_without_blank_concat(a, b.drop_last());
        let rest = without_blank_names(b.drop_last());
        if normalized_name(b.last()).len() > 0 {
            assert((without_blank_names(a) + rest).push(b.last()) =~= without_blank_names(a)
                + rest.push(b.last()));
        }
    }
}

/// Putting a name with an empty normal form into a list, at any place, does
/// not change which names have a non-empty normal form.
pub proof fn lemma_without_blank_insert(columns: Seq<Seq<char>>, at: int, name: Seq<char>)
    requires
        0 <= at <= columns.len(),
        normalized_name(name).len() == 0,
    ensures
        without_blank_names(columns.insert(at, name)) == without_blank_names(columns),
{
    let a = columns.take(at);
    let b = columns.skip(at);
    let one = seq![name];
    assert(columns.insert(at, name) =~= (a + one) + b);
    assert(columns =~= a + b);
    lemma_without_blank_concat(a + one, b);
    lemma_without_blank_concat(a, one);
    lemma_without_blank_concat(a, b);
    assert(one.drop_last() =~= Seq::<Seq<char>>::empty());
    assert(without_blank_names(one.drop_last()) =~= Seq::<Seq<char>>::empty());
    assert(without_blank_names(one) =~= Seq::<Seq<char>>::empty());
    assert((without_blank_names(a) + Seq::<Seq<char>>::empty()) + without_blank_names(b)
        =~= without_blank_names(a) + without_blank_names(b));
}

/// Names with an empty normal form do not count, however many there are and
/// wherever they stand: two lists that agree once such names are taken out
/// have the same fingerprint.
pub proof fn lemma_fingerprint_ignores_all_blank_names(c: Seq<Seq<char>>, d: Seq<Seq<char>>)
    requires
        without_blank_names(c) == without_blank_names(d),
    ensures
        fingerprint(c) == fingerprint(d),
{
    lemma_normalized_without_blank(c);
    lemma_normalized_without_blank(d);
}

/// Normal form of one column name.
pub fn normalize_name(name: &str) -> (r: String)
    ensures
        r@ == normalized_name(name@),
{
    let lowered = to_lowercase(name);
    let mut out = String::new();
    assert(lowered@.take(0) =~= Seq::<char>::empty());
    for c in it: lowered.as_str().chars()
        invariant
            it.seq() == lowered@,
            out@ == keep_alphanumeric(lowered@.take(it.index() as int)),
    {
        proof {
            let now = lowered@.take(it.index() + 1);
            assert(now.drop_last() =~= lowered@.take(it.index() as int));
            assert(now.last() == c);
        }
        if is_alphanumeric(c) {
            push_char(&mut out, c);
        }
    }
    assert(lowered@.take(lowered@.len() as int) =~= lowered@);
    out
}

/// Fingerprint of a list of column names: the checksum of the normalized,
/// sorted, comma-joined names.
pub fn calculate_column_similarity_hash(columns: &Vec<String>) -> (hash: u32)
    ensures
        hash == fingerprint(texts(columns@)),
{
    let mut processed: Vec<String> = Vec::new();
    let mut i: usize = 0;
    assert(texts(columns@).take(0) =~= Seq::<Seq<char>>::empty());
    assert(texts(processed@) =~= Seq::<Seq<char>>::empty());
    while i < columns.len()
        invariant
            i <= columns.len(),
            texts(processed@) == normalized_names(texts(columns@).take(i as int)),
        decreases columns.len() - i,
    {
        let name = normalize_name(columns[i].as_str());
        proof {
            let now = texts(columns@).take(i + 1);
            assert(now.drop_last() =~= texts(columns@).take(i as int));
            assert(now.last() == columns@[i as int]@);
        }
        if !name.as_str().is_empty() {
            let ghost before = processed@;
            processed.push(name);
            assert(texts(processed@) =~= texts(before).push(name@));
        }
        i += 1;
    }
    assert(texts(columns@).take(columns.len() as int) =~= texts(columns@));
    let sorted = sort_strings(&processed);
    proof {
        reveal_strlit(",");
        assert(","@ =~= seq![',']);
    }
    let joined = join_strings(&sorted, ",");
    crc32(joined.as_str().as_bytes())
}

} // verus!
