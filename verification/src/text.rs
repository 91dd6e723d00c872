//! Character-sequence utilities shared by the decoder: collecting the
//! characters of a string, splitting on a separator, membership tests,
//! and parsing unsigned decimal numerals.

use vstd::prelude::*;
use vstd::string::StrSliceExecFns;

verus! {

/// Collect the characters of a string slice into a vector, in order.
pub fn chars_of(s: &str) -> (v: Vec<char>)
    ensures
        v@ == s@,
{
    let n = s.unicode_len();
    let mut v: Vec<char> = Vec::new();
    let mut i: usize = 0;
    while i < n
        invariant
            n == s@.len(),
            i <= n,
            v@ == s@.take(i as int),
        decreases n - i,
    {
        v.push(s.get_char(i));
        i = i + 1;
        proof {
            assert(v@ =~= s@.take(i as int));
        }
    }
    proof {
        assert(s@.take(n as int) =~= s@);
    }
    v
}

/// The fields obtained by cutting `s` at every occurrence of `sep`,
/// in order; an empty input yields one empty field, and adjacent
/// separators yield empty fields between them.
pub open spec fn split_on(s: Seq<char>, sep: char) -> Seq<Seq<char>>
    decreases s.len(),
{
    if s.len() == 0 {
        seq![Seq::<char>::empty()]
    } else if s[0] == sep {
        seq![Seq::<char>::empty()] + split_on(s.skip(1), sep)
    } else {
        let rest = split_on(s.skip(1), sep);
        seq![seq![s[0]] + rest[0]] + rest.skip(1)
    }
}

pub proof fn lemma_split_on_len(s: Seq<char>, sep: char)
    ensures
        split_on(s, sep).len() >= 1,
    decreases s.len(),
{
    if s.len() == 0 {
    } else if s[0] == sep {
        lemma_split_on_len(s.skip(1), sep);
    } else {
        lemma_split_on_len(s.skip(1), sep);
    }
}

/// Appending one character to the text either opens a fresh empty
/// field (when it is the separator) or extends the last field.
pub proof fn lemma_split_on_push(s: Seq<char>, sep: char, c: char)
    ensures
        c == sep ==> split_on(s.push(c), sep) == split_on(s, sep).push(Seq::<char>::empty()),
        c != sep ==> split_on(s.push(c), sep) == split_on(s, sep).update(
            split_on(s, sep).len() - 1,
            split_on(s, sep).last().push(c),
        ),
    decreases s.len(),
{
    lemma_split_on_len(s, sep);
    assert(split_on(Seq::<char>::empty(), sep) == seq![Seq::<char>::empty()]);
    if s.len() == 0 {
        assert(s =~= Seq::<char>::empty());
        if c == sep {
            assert(s.push(c)[0] == sep);
            assert(s.push(c).skip(1) =~= Seq::<char>::empty());
            assert(split_on(s.push(c), sep) == seq![Seq::<char>::empty()] + split_on(
                Seq::<char>::empty(),
                sep,
            ));
            assert(split_on(s.push(c), sep) =~= split_on(s, sep).push(Seq::<char>::empty()));
        } else {
            assert(s.push(c)[0] == c);
            assert(s.push(c).skip(1) =~= Seq::<char>::empty());
            assert(seq![c] + split_on(Seq::<char>::empty(), sep)[0] =~= Seq::<char>::empty().push(
                c,
            ));
            assert(split_on(s.push(c), sep) =~= split_on(s, sep).update(
                split_on(s, sep).len() - 1,
                split_on(s, sep).last().push(c),
            ));
        }
    } else {
        let t = s.skip(1);
        assert(s.push(c)[0] == s[0]);
        assert(s.push(c).skip(1) =~= t.push(c));
        lemma_split_on_push(t, sep, c);
        lemma_split_on_len(t, sep);
        if s[0] == sep {
            if c == sep {
                assert(split_on(s.push(c), sep) =~= split_on(s, sep).push(Seq::<char>::empty()));
            } else {
                let rt = split_on(t, sep);
                assert(split_on(t.push(c), sep) == rt.update(rt.len() - 1, rt.last().push(c)));
                assert(split_on(s, sep) == seq![Seq::<char>::empty()] + rt);
                assert(split_on(s, sep).last() == rt.last());
                assert(split_on(s.push(c), sep) =~= split_on(s, sep).update(
                    split_on(s, sep).len() - 1,
                    split_on(s, sep).last().push(c),
                ));
            }
        } else {
            let rt = split_on(t, sep);
            if c == sep {
                let rtp = split_on(t.push(c), sep);
                assert(rtp == rt.push(Seq::<char>::empty()));
                assert(rtp[0] == rt[0]);
                assert(rtp.skip(1) =~= rt.skip(1).push(Seq::<char>::empty()));
                assert(split_on(s.push(c), sep) =~= split_on(s, sep).push(Seq::<char>::empty()));
            } else {
                let rtp = split_on(t.push(c), sep);
                assert(rtp == rt.update(rt.len() - 1, rt.last().push(c)));
                if rt.len() == 1 {
                    assert(rtp[0] == rt.last().push(c));
                    assert(rtp.skip(1) =~= rt.skip(1));
                    assert(split_on(s.push(c), sep) =~= split_on(s, sep).update(
                        split_on(s, sep).len() - 1,
                        split_on(s, sep).last().push(c),
                    ));
                } else {
                    assert(rtp[0] == rt[0]);
                    assert(rtp.skip(1) =~= rt.skip(1).update(rt.len() - 2, rt.last().push(c)));
                    assert(split_on(s, sep).last() == rt.last());
                    assert(split_on(s.push(c), sep) =~= split_on(s, sep).update(
                        split_on(s, sep).len() - 1,
                        split_on(s, sep).last().push(c),
                    ));
                }
            }
        }
    }
}

/// Cut a character vector at every occurrence of `sep`.
pub fn split_chars(v: &Vec<char>, sep: char) -> (r: Vec<Vec<char>>)
    ensures
        r.deep_view() == split_on(v@, sep),
        r.len() >= 1,
{
    let mut fields: Vec<Vec<char>> = Vec::new();
    let mut cur: Vec<char> = Vec::new();
    let mut i: usize = 0;
    proof {
        assert(v@.take(0) =~= Seq::<char>::empty());
        assert(split_on(v@.take(0), sep) == seq![Seq::<char>::empty()]);
        assert(fields.deep_view().push(cur@) =~~= split_on(v@.take(0), sep));
    }
    while i < v.len()
        invariant
            i <= v@.len(),
            fields.deep_view().push(cur@) == split_on(v@.take(i as int), sep),
        decreases v@.len() - i,
    {
        let c = v[i];
        proof {
            assert(v@.take(i + 1) =~= v@.take(i as int).push(v@[i as int]));
            lemma_split_on_push(v@.take(i as int), sep, c);
        }
        if c == sep {
            let ghost old_fields = fields.deep_view();
            let ghost old_cur = cur@;
            fields.push(cur);
            cur = Vec::new();
            proof {
                assert(fields.deep_view() =~~= old_fields.push(old_cur));
                assert(fields.deep_view().push(cur@) =~~= split_on(
                    v@.take(i as int),
                    sep,
                ).push(Seq::<char>::empty()));
            }
        } else {
            let ghost old_split = split_on(v@.take(i as int), sep);
            cur.push(c);
            proof {
                assert(old_split == fields.deep_view().push(old_split.last()));
                assert(fields.deep_view().push(cur@) =~~= old_split.update(
                    old_split.len() - 1,
                    old_split.last().push(c),
                ));
            }
        }
        i = i + 1;
    }
    proof {
        assert(v@.take(v@.len() as int) =~= v@);
    }
    let ghost old_fields = fields.deep_view();
    let ghost old_cur = cur@;
    fields.push(cur);
    proof {
        assert(fields.deep_view() =~~= old_fields.push(old_cur));
    }
    fields
}

/// Whether the vector holds the character `c`.
pub fn contains_char(v: &Vec<char>, c: char) -> (b: bool)
    ensures
        b == v@.contains(c),
{
    let mut i: usize = 0;
    while i < v.len()
        invariant
            i <= v@.len(),
            forall|j: int| 0 <= j < i ==> v@[j] != c,
        decreases v@.len() - i,
    {
        if v[i] == c {
            return true;
        }
        i = i + 1;
    }
    false
}

/// A decimal digit.
pub open spec fn is_dec_digit(c: char) -> bool {
    '0' <= c && c <= '9'
}

pub open spec fn dec_digit_val(c: char) -> int {
    c as int - '0' as int
}

/// A well-formed unsigned decimal numeral: at least one character,
/// all of them digits.
pub open spec fn is_dec_numeral(s: Seq<char>) -> bool {
    s.len() > 0 && forall|i: int| 0 <= i < s.len() ==> is_dec_digit(#[trigger] s[i])
}

/// The value of a digit string, most significant digit first.
pub open spec fn dec_val(s: Seq<char>) -> int
    decreases s.len(),
{
    if s.len() == 0 {
        0
    } else {
        dec_val(s.drop_last()) * 10 + dec_digit_val(s.last())
    }
}

pub proof fn lemma_dec_val_nonneg(s: Seq<char>)
    requires
        forall|i: int| 0 <= i < s.len() ==> is_dec_digit(#[trigger] s[i]),
    ensures
        dec_val(s) >= 0,
    decreases s.len(),
{
    if s.len() > 0 {
        lemma_dec_val_nonneg(s.drop_last());
    }
}

/// A digit string is worth at least any of its prefixes.
pub proof fn lemma_dec_val_prefix(s: Seq<char>, j: int)
    requires
        forall|i: int| 0 <= i < s.len() ==> is_dec_digit(#[trigger] s[i]),
        0 <= j <= s.len(),
    ensures
        dec_val(s.take(j)) <= dec_val(s),
    decreases s.len(),
{
    if j == s.len() {
        assert(s.take(j) =~= s);
    } else {
        assert(s.drop_last().take(j) =~= s.take(j));
        lemma_dec_val_prefix(s.drop_last(), j);
        lemma_dec_val_nonneg(s.drop_last());
    }
}

/// Parse an unsigned decimal numeral that fits in an `i32`; any other
/// content, and any value past `i32::MAX`, yields `None`.
pub fn parse_decimal(v: &Vec<char>) -> (r: Option<i32>)
    ensures
        r is Some <==> is_dec_numeral(v@) && dec_val(v@) <= i32::MAX,
        r is Some ==> 0 <= r->0 && r->0 as int == dec_val(v@),
{
    if v.len() == 0 {
        return None;
    }
    let mut val: u64 = 0;
    let mut i: usize = 0;
    while i < v.len()
        invariant
            i <= v@.len(),
            forall|j: int| 0 <= j < i ==> is_dec_digit(#[trigger] v@[j]),
            val as int == dec_val(v@.take(i as int)),
            val <= i32::MAX as u64,
        decreases v@.len() - i,
    {
        let c = v[i];
        if !('0' <= c && c <= '9') {
            return None;
        }
        let d: u64 = (c as u32 - '0' as u32) as u64;
        proof {
            assert(v@.take(i + 1).drop_last() =~= v@.take(i as int));
            assert(v@.take(i + 1).last() == v@[i as int]);
        }
        val = val * 10 + d;
        i = i + 1;
        if val > i32::MAX as u64 {
            proof {
                if is_dec_numeral(v@) {
                    lemma_dec_val_prefix(v@, i as int);
                }
            }
            return None;
        }
    }
    proof {
        assert(v@.take(v@.len() as int) =~= v@);
    }
    Some(val as i32)
}

} // verus!
