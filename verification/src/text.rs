//! Byte strings: decimal numbers and fields between separators.

use vstd::prelude::*;
use vstd::slice::slice_subrange;

verus! {

/// The digit `0`.
pub const DIGIT_0: u8 = 0x30;

/// The digit `9`.
pub const DIGIT_9: u8 = 0x39;

/// `b` is one of the digits `0` to `9`.
pub open spec fn is_digit(b: u8) -> bool {
    DIGIT_0 <= b <= DIGIT_9
}

/// The number that the digit `b` stands for.
pub open spec fn digit_value(b: u8) -> nat
    recommends
        is_digit(b),
{
    (b - DIGIT_0) as nat
}

/// The digit that stands for `d`.
pub open spec fn digit_byte(d: nat) -> u8
    recommends
        d < 10,
{
    (DIGIT_0 + d) as u8
}

/// Every byte of `s` is a digit.
pub open spec fn all_digits(s: Seq<u8>) -> bool {
    forall|i: int| 0 <= i < s.len() ==> is_digit(#[trigger] s[i])
}

/// The number that a string of digits denotes in base ten.
pub open spec fn dec_value(s: Seq<u8>) -> nat
    decreases s.len(),
{
    if s.len() == 0 {
        0
    } else {
        dec_value(s.drop_last()) * 10 + digit_value(s.last())
    }
}

/// The decimal text of `n`, without leading zeros.
pub open spec fn dec_text(n: nat) -> Seq<u8>
    decreases n,
{
    if n < 10 {
        seq![digit_byte(n)]
    } else {
        dec_text(n / 10).push(digit_byte(n % 10))
    }
}

/// `s` is a number written without leading zeros.
pub open spec fn is_canonical(s: Seq<u8>) -> bool {
    s.len() >= 1 && all_digits(s) && (s.len() == 1 || s[0] != DIGIT_0)
}

/// The position of the first `b` in `s`, or the length of `s` if it holds
/// none.
pub open spec fn first_index(s: Seq<u8>, b: u8) -> int
    decreases s.len(),
{
    if s.len() == 0 || s[0] == b {
        0
    } else {
        1 + first_index(s.drop_first(), b)
    }
}

/// The fields of `s` between the separators `sep`: what a split at every
/// separator gives. A string without separator is one field, and so is the
/// empty string.
pub open spec fn fields(s: Seq<u8>, sep: u8) -> Seq<Seq<u8>>
    decreases s.len(),
{
    if s.len() == 0 {
        seq![Seq::<u8>::empty()]
    } else {
        let before = fields(s.drop_last(), sep);
        if s.last() == sep {
            before.push(Seq::<u8>::empty())
        } else {
            before.drop_last().push(before.last().push(s.last()))
        }
    }
}

/// The fields `parts` with one separator between each two of them.
pub open spec fn join(parts: Seq<Seq<u8>>, sep: u8) -> Seq<u8>
    decreases parts.len(),
{
    if parts.len() == 0 {
        Seq::<u8>::empty()
    } else if parts.len() == 1 {
        parts[0]
    } else {
        join(parts.drop_last(), sep) + seq![sep] + parts.last()
    }
}

/// No field of `parts` holds the separator.
pub open spec fn free_of(parts: Seq<Seq<u8>>, sep: u8) -> bool {
    forall|k: int, i: int|
        0 <= k < parts.len() && 0 <= i < parts[k].len() ==> #[trigger] parts[k][i] != sep
}

/// The decimal text of a number is canonical and denotes that number.
pub proof fn lemma_dec_text(n: nat)
    ensures
        is_canonical(dec_text(n)),
        dec_value(dec_text(n)) == n,
    decreases n,
{
    let s = dec_text(n);
    if n < 10 {
        assert(s.drop_last() =~= Seq::<u8>::empty());
        assert(dec_value(s.drop_last()) == 0);
    } else {
        let t = dec_text(n / 10);
        lemma_dec_text(n / 10);
        assert(s.drop_last() =~= t);
        assert(s[0] == t[0]);
        if t.len() == 1 {
            assert(t.drop_last() =~= Seq::<u8>::empty());
            assert(dec_value(t.drop_last()) == 0);
            assert(dec_value(t) == digit_value(t[0]));
        }
        assert forall|i: int| 0 <= i < s.len() implies is_digit(#[trigger] s[i]) by {
            if i < t.len() {
                assert(s[i] == t[i]);
            }
        }
    }
}

proof fn lemma_dec_value_positive(s: Seq<u8>)
    requires
        s.len() >= 1,
        all_digits(s),
        s[0] != DIGIT_0,
    ensures
        dec_value(s) >= 1,
    decreases s.len(),
{
    if s.len() == 1 {
        assert(s.drop_last() =~= Seq::<u8>::empty());
        assert(dec_value(s.drop_last()) == 0);
        assert(is_digit(s[0]));
    } else {
        assert(s.drop_last()[0] == s[0]);
        lemma_dec_value_positive(s.drop_last());
    }
}

/// A canonical number is the decimal text of what it denotes.
pub proof fn lemma_canonical_text(s: Seq<u8>)
    requires
        is_canonical(s),
    ensures
        dec_text(dec_value(s)) == s,
    decreases s.len(),
{
    assert(is_digit(s.last()));
    if s.len() == 1 {
        assert(s.drop_last() =~= Seq::<u8>::empty());
        assert(dec_value(s.drop_last()) == 0);
        assert(dec_text(dec_value(s)) =~= s);
    } else {
        let t = s.drop_last();
        assert(t[0] == s[0]);
        lemma_dec_value_positive(t);
        lemma_canonical_text(t);
        let v = dec_value(s);
        assert(v / 10 == dec_value(t) && v % 10 == digit_value(s.last())) by (nonlinear_arith)
            requires
                v == dec_value(t) * 10 + digit_value(s.last()),
                digit_value(s.last()) < 10,
        ;
        assert(dec_text(v) =~= s);
    }
}

/// The number that a string of digits denotes does not shrink when a digit
/// is appended.
pub proof fn lemma_dec_value_take(s: Seq<u8>, i: int)
    requires
        0 <= i < s.len(),
    ensures
        dec_value(s.take(i + 1)) == dec_value(s.take(i)) * 10 + digit_value(s[i]),
{
    assert(s.take(i + 1).drop_last() =~= s.take(i));
}

/// `first_index` is the one position before which no `b` stands and at
/// which `b` stands or the string ends.
pub proof fn lemma_first_index(s: Seq<u8>, b: u8, j: int)
    requires
        0 <= j <= s.len(),
        forall|k: int| 0 <= k < j ==> s[k] != b,
        j == s.len() || s[j] == b,
    ensures
        first_index(s, b) == j,
    decreases j,
{
    if j > 0 {
        lemma_first_index(s.drop_first(), b, j - 1);
    }
}

/// A string has at least one field, and no field holds the separator.
pub proof fn lemma_fields_free(s: Seq<u8>, sep: u8)
    ensures
        fields(s, sep).len() >= 1,
        free_of(fields(s, sep), sep),
    decreases s.len(),
{
    if s.len() > 0 {
        lemma_fields_free(s.drop_last(), sep);
    }
}

/// Joining the fields of a string gives the string back.
pub proof fn lemma_fields_join(s: Seq<u8>, sep: u8)
    ensures
        join(fields(s, sep), sep) == s,
    decreases s.len(),
{
    if s.len() == 0 {
    } else {
        let t = s.drop_last();
        let before = fields(t, sep);
        lemma_fields_free(t, sep);
        lemma_fields_join(t, sep);
        if s.last() == sep {
            let parts = before.push(Seq::<u8>::empty());
            assert(parts.drop_last() =~= before);
            assert(join(parts, sep) =~= t + seq![sep]);
            assert(t + seq![sep] =~= s);
        } else {
            let parts = before.drop_last().push(before.last().push(s.last()));
            if before.len() == 1 {
                assert(join(parts, sep) =~= before[0].push(s.last()));
                assert(join(before, sep) == before[0]);
            } else {
                assert(parts.drop_last() =~= before.drop_last());
                assert(join(parts, sep) =~= join(before.drop_last(), sep) + seq![sep] + before.last().push(
                    s.last(),
                ));
                assert(join(before, sep) =~= join(before.drop_last(), sep) + seq![sep] + before.last());
            }
            assert(join(parts, sep) =~= t.push(s.last()));
            assert(t.push(s.last()) =~= s);
        }
    }
}

proof fn lemma_fields_extend(s: Seq<u8>, tail: Seq<u8>, sep: u8)
    requires
        forall|i: int| 0 <= i < tail.len() ==> tail[i] != sep,
    ensures
        fields(s + tail, sep) == fields(s, sep).drop_last().push(fields(s, sep).last() + tail),
    decreases tail.len(),
{
    lemma_fields_free(s, sep);
    let base = fields(s, sep);
    if tail.len() == 0 {
        assert(s + tail =~= s);
        assert(base.last() + tail =~= base.last());
        assert(base.drop_last().push(base.last()) =~= base);
    } else {
        let shorter = tail.drop_last();
        lemma_fields_extend(s, shorter, sep);
        assert((s + tail).drop_last() =~= s + shorter);
        assert((s + tail).last() == tail.last());
        let before = fields(s + shorter, sep);
        assert(before.drop_last() =~= base.drop_last());
        assert(before.last().push(tail.last()) =~= base.last() + tail);
    }
}

/// Splitting what was joined gives the fields back, as long as there is at
/// least one field and none holds the separator.
pub proof fn lemma_join_fields(parts: Seq<Seq<u8>>, sep: u8)
    requires
        parts.len() >= 1,
        free_of(parts, sep),
    ensures
        fields(join(parts, sep), sep) == parts,
    decreases parts.len(),
{
    if parts.len() == 1 {
        lemma_fields_extend(Seq::<u8>::empty(), parts[0], sep);
        assert(Seq::<u8>::empty() + parts[0] =~= parts[0]);
        assert(fields(Seq::<u8>::empty(), sep) =~= seq![Seq::<u8>::empty()]);
        assert(fields(parts[0], sep) =~= parts);
    } else {
        let front = parts.drop_last();
        assert(free_of(front, sep)) by {
            assert forall|k: int, i: int|
                0 <= k < front.len() && 0 <= i < front[k].len() implies #[trigger] front[k][i]
                != sep by {
                assert(front[k][i] == parts[k][i]);
            }
        }
        lemma_join_fields(front, sep);
        let head = join(front, sep) + seq![sep];
        assert(head.drop_last() =~= join(front, sep));
        assert(fields(head, sep) == front.push(Seq::<u8>::empty()));
        lemma_fields_extend(head, parts.last(), sep);
        assert(Seq::<u8>::empty() + parts.last() =~= parts.last());
        assert(front.push(Seq::<u8>::empty()).drop_last() =~= front);
        assert(front.push(parts.last()) =~= parts);
    }
}

/// `s` starts and ends with a byte that is not the separator, and holds no
/// two separators in a row: what joining fields that are not empty gives.
pub open spec fn well_spaced(s: Seq<u8>, sep: u8) -> bool {
    &&& s.len() >= 1
    &&& s[0] != sep
    &&& s.last() != sep
    &&& forall|i: int| 0 <= i < s.len() - 1 ==> !(s[i] == sep && #[trigger] s[i + 1] == sep)
}

/// No field of `parts` is empty.
pub open spec fn none_empty(parts: Seq<Seq<u8>>) -> bool {
    forall|k: int| 0 <= k < parts.len() ==> (#[trigger] parts[k]).len() >= 1
}

/// Joining fields that are not empty gives a well-spaced text.
pub proof fn lemma_join_spaced(parts: Seq<Seq<u8>>, sep: u8)
    requires
        parts.len() >= 1,
        free_of(parts, sep),
        none_empty(parts),
    ensures
        well_spaced(join(parts, sep), sep),
    decreases parts.len(),
{
    let s = join(parts, sep);
    let last = parts.last();
    assert(last.len() >= 1);
    assert(last[0] != sep);
    assert(last[last.len() - 1] != sep);
    if parts.len() == 1 {
        assert forall|i: int| 0 <= i < s.len() - 1 implies !(s[i] == sep && #[trigger] s[i + 1] == sep) by {
            assert(parts[0][i] != sep);
        }
    } else {
        let front = parts.drop_last();
        assert(free_of(front, sep)) by {
            assert forall|k: int, i: int|
                0 <= k < front.len() && 0 <= i < front[k].len() implies #[trigger] front[k][i]
                != sep by {
                assert(front[k][i] == parts[k][i]);
            }
        }
        assert(none_empty(front)) by {
            assert forall|k: int| 0 <= k < front.len() implies (#[trigger] front[k]).len() >= 1 by {
                assert(front[k] == parts[k]);
            }
        }
        lemma_join_spaced(front, sep);
        let a = join(front, sep);
        assert(s =~= a + seq![sep] + last);
        assert(s[0] == a[0]);
        assert(s.last() == last.last());
        assert forall|i: int| 0 <= i < s.len() - 1 implies !(s[i] == sep && #[trigger] s[i + 1] == sep) by {
            if i + 1 < a.len() {
                assert(s[i] == a[i] && s[i + 1] == a[i + 1]);
            } else if i + 1 == a.len() {
                assert(s[i] == a.last());
            } else if i == a.len() {
                assert(s[i + 1] == last[0]);
            } else {
                assert(s[i] == last[i - a.len() - 1]);
            }
        }
    }
}

/// Every byte of a joined text is the separator or a byte of a field.
pub proof fn lemma_join_bytes(parts: Seq<Seq<u8>>, sep: u8, allowed: spec_fn(u8) -> bool)
    requires
        allowed(sep),
        forall|k: int, i: int|
            0 <= k < parts.len() && 0 <= i < parts[k].len() ==> allowed(#[trigger] parts[k][i]),
    ensures
        forall|i: int| 0 <= i < join(parts, sep).len() ==> allowed(#[trigger] join(parts, sep)[i]),
    decreases parts.len(),
{
    let s = join(parts, sep);
    if parts.len() == 0 {
    } else if parts.len() == 1 {
        assert forall|i: int| 0 <= i < s.len() implies allowed(#[trigger] s[i]) by {
            assert(s[i] == parts[0][i]);
        }
    } else {
        let front = parts.drop_last();
        assert forall|k: int, i: int| 0 <= k < front.len() && 0 <= i < front[k].len() implies allowed(
            #[trigger] front[k][i],
        ) by {
            assert(front[k][i] == parts[k][i]);
        }
        lemma_join_bytes(front, sep, allowed);
        let a = join(front, sep);
        let last = parts.last();
        assert forall|i: int| 0 <= i < s.len() implies allowed(#[trigger] s[i]) by {
            if i < a.len() {
                assert(s[i] == a[i]);
            } else if i > a.len() {
                assert(s[i] == last[i - a.len() - 1]);
                assert(last[i - a.len() - 1] == parts[parts.len() - 1][i - a.len() - 1]);
            }
        }
    }
}

/// The position of the first `b` in `s`, or the length of `s` if it holds
/// none.
pub fn find_byte(s: &[u8], b: u8) -> (j: usize)
    ensures
        j == first_index(s@, b),
{
    let mut j: usize = 0;
    while j < s.len() && s[j] != b
        invariant
            j <= s.len(),
            forall|k: int| 0 <= k < j ==> s@[k] != b,
        decreases s.len() - j,
    {
        j += 1;
    }
    proof {
        lemma_first_index(s@, b, j as int);
    }
    j
}

/// Splits `s` at every `sep`.
pub fn split<'a>(s: &'a [u8], sep: u8) -> (parts: Vec<&'a [u8]>)
    ensures
        parts@.len() == fields(s@, sep).len(),
        forall|k: int| 0 <= k < parts@.len() ==> (#[trigger] parts@[k])@ == fields(s@, sep)[k],
{
    let mut parts: Vec<&'a [u8]> = Vec::new();
    let mut start: usize = 0;
    let mut i: usize = 0;
    while i < s.len()
        invariant
            start <= i <= s.len(),
            fields(s@.take(i as int), sep).len() == parts@.len() + 1,
            forall|k: int|
                0 <= k < parts@.len() ==> (#[trigger] parts@[k])@ == fields(s@.take(i as int), sep)[k],
            fields(s@.take(i as int), sep).last() == s@.subrange(start as int, i as int),
        decreases s.len() - i,
    {
        let ghost before = fields(s@.take(i as int), sep);
        proof {
            assert(s@.take(i + 1).drop_last() =~= s@.take(i as int));
            assert(s@.take(i + 1).last() == s@[i as int]);
        }
        if s[i] == sep {
            parts.push(slice_subrange(s, start, i));
            start = i + 1;
            proof {
                assert(s@.subrange(start as int, start as int) =~= Seq::<u8>::empty());
            }
        } else {
            proof {
                assert(before.last().push(s@[i as int]) =~= s@.subrange(start as int, i + 1));
            }
        }
        i += 1;
    }
    proof {
        assert(s@.take(i as int) =~= s@);
    }
    parts.push(slice_subrange(s, start, i));
    parts
}

/// The number that the digits of `s` denote, numbers above 255 being given
/// as 256; `None` if `s` is empty or holds anything but digits.
pub fn parse_decimal(s: &[u8]) -> (value: Option<u32>)
    ensures
        value is Some <==> s@.len() >= 1 && all_digits(s@),
        value matches Some(v) ==> v == if dec_value(s@) <= 255 {
            dec_value(s@)
        } else {
            256nat
        },
{
    if s.len() == 0 {
        return None;
    }
    let mut acc: u32 = 0;
    let mut i: usize = 0;
    while i < s.len()
        invariant
            i <= s.len(),
            all_digits(s@.take(i as int)),
            acc == if dec_value(s@.take(i as int)) <= 255 {
                dec_value(s@.take(i as int))
            } else {
                256nat
            },
        decreases s.len() - i,
    {
        let b = s[i];
        if b < DIGIT_0 || b > DIGIT_9 {
            proof {
                assert(!is_digit(s@[i as int]));
            }
            return None;
        }
        proof {
            lemma_dec_value_take(s@, i as int);
            assert forall|k: int| 0 <= k < i + 1 implies is_digit(#[trigger] s@.take(i + 1)[k]) by {
                if k < i {
                    assert(s@.take(i as int)[k] == s@[k]);
                }
            }
        }
        acc = acc * 10 + (b - DIGIT_0) as u32;
        if acc > 255 {
            acc = 256;
        }
        i += 1;
    }
    proof {
        assert(s@.take(i as int) =~= s@);
    }
    Some(acc)
}

/// Appends the decimal text of `n` to `out`.
pub fn push_decimal(out: &mut Vec<u8>, n: u32)
    ensures
        final(out)@ == old(out)@ + dec_text(n as nat),
    decreases n,
{
    if n >= 10 {
        push_decimal(out, n / 10);
    }
    out.push(DIGIT_0 + (n % 10) as u8);
    proof {
        if n >= 10 {
            assert(out@ =~= old(out)@ + dec_text(n as nat));
        } else {
            assert(out@ =~= old(out)@ + dec_text(n as nat));
        }
    }
}

} // verus!
