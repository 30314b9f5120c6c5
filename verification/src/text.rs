//! Cutting a text into lines and a line into fields, byte by byte.

use vstd::prelude::*;
use vstd::string::StringSliceAdditionalSpecFns;
use vstd::utf8::{
    encode_utf8_valid_utf8,
    is_char_boundary,
    is_char_boundary_iff_not_is_continuation_byte,
    is_char_boundary_start_end_of_seq,
    valid_utf8,
    valid_utf8_split,
};

verus! {

/// The byte that separates the fields of a record.
pub const COMMA: u8 = 0x2c;

/// The byte that ends a line.
pub const NEWLINE: u8 = 0x0a;

/// The byte that may stand before the one that ends a line.
pub const CARRIAGE_RETURN: u8 = 0x0d;

/// The bytes of each piece of text.
pub open spec fn bytes_of(pieces: Seq<&str>) -> Seq<Seq<u8>> {
    Seq::new(pieces.len(), |i: int| pieces[i].spec_bytes())
}

/// Where the last comma stands, or -1 where there is none.
pub open spec fn last_comma(s: Seq<u8>) -> int
    decreases s.len(),
{
    if s.len() == 0 {
        -1
    } else if s.last() == COMMA {
        s.len() - 1
    } else {
        last_comma(s.drop_last())
    }
}

/// A line cut at its last `n` commas, or at all of them where it has fewer: what stands
/// before the first cut, and the fields after each cut from left to right.
pub open spec fn split_fields(s: Seq<u8>, n: nat) -> (Seq<u8>, Seq<Seq<u8>>)
    decreases n,
{
    let k = last_comma(s);
    if n == 0 || !(0 <= k < s.len()) {
        (s, Seq::empty())
    } else {
        let rest = split_fields(s.subrange(0, k), (n - 1) as nat);
        (rest.0, rest.1.push(s.subrange(k + 1, s.len() as int)))
    }
}

/// Where the first line ends: at the first newline, or at the end where there is none.
pub open spec fn first_newline(s: Seq<u8>) -> int
    decreases s.len(),
{
    if s.len() == 0 || s[0] == NEWLINE {
        0
    } else {
        1 + first_newline(s.drop_first())
    }
}

/// The first line without its ending: a newline, or a carriage return and a newline.
pub open spec fn first_line(s: Seq<u8>) -> Seq<u8> {
    let k = first_newline(s);
    if 0 < k < s.len() && s[k - 1] == CARRIAGE_RETURN {
        s.subrange(0, k - 1)
    } else {
        s.subrange(0, k)
    }
}

/// What follows the first line and its ending.
pub open spec fn after_first_line(s: Seq<u8>) -> Seq<u8> {
    let k = first_newline(s);
    if 0 <= k < s.len() {
        s.subrange(k + 1, s.len() as int)
    } else {
        Seq::empty()
    }
}

/// The lines of a text. The ending of the last line may be missing; an empty text has no line.
pub open spec fn lines_of(s: Seq<u8>) -> Seq<Seq<u8>>
    decreases s.len(),
{
    if s.len() == 0 {
        Seq::empty()
    } else {
        seq![first_line(s)] + lines_of(after_first_line(s))
    }
}

/// The first line ends at `k` where a newline stands at `k`, or the text ends there, and
/// no newline stands before.
pub proof fn lemma_first_newline(s: Seq<u8>, k: int)
    requires
        0 <= k <= s.len(),
        forall|i: int| 0 <= i < k ==> s[i] != NEWLINE,
        k < s.len() ==> s[k] == NEWLINE,
    ensures
        first_newline(s) == k,
    decreases s.len(),
{
    if k > 0 {
        lemma_first_newline(s.drop_first(), k - 1);
    }
}

/// A byte below 0x80 stands for a character of its own, so a text can be cut before it.
proof fn lemma_boundary_before(s: &str, k: int)
    requires
        0 <= k < s.spec_bytes().len(),
        s.spec_bytes()[k] < 0x80,
    ensures
        valid_utf8(s.spec_bytes()),
        is_char_boundary(s.spec_bytes(), k),
{
    encode_utf8_valid_utf8(s@);
    is_char_boundary_iff_not_is_continuation_byte(s.spec_bytes(), k);
}

/// A text that starts with a byte below 0x80 can be cut after it.
proof fn lemma_boundary_after_first(s: &str)
    requires
        0 < s.spec_bytes().len(),
        s.spec_bytes()[0] < 0x80,
    ensures
        is_char_boundary(s.spec_bytes(), 1),
{
    let bytes = s.spec_bytes();
    encode_utf8_valid_utf8(s@);
    reveal_with_fuel(valid_utf8, 2);
    reveal_with_fuel(is_char_boundary, 2);
    is_char_boundary_start_end_of_seq(bytes);
}

/// Cuts a text around the byte at `k`, which stands for a character of its own.
pub fn cut_around<'a>(s: &'a str, k: usize) -> (r: (&'a str, &'a str))
    requires
        k < s.spec_bytes().len(),
        s.spec_bytes()[k as int] < 0x80,
    ensures
        r.0.spec_bytes() == s.spec_bytes().subrange(0, k as int),
        r.1.spec_bytes() == s.spec_bytes().subrange(k + 1, s.spec_bytes().len() as int),
{
    proof {
        lemma_boundary_before(s, k as int);
    }
    let (left, rest) = s.split_at(k);
    proof {
        lemma_boundary_after_first(rest);
    }
    let (_, right) = rest.split_at(1);
    assert(right.spec_bytes() =~= s.spec_bytes().subrange(k + 1, s.spec_bytes().len() as int));
    (left, right)
}

/// Looks for the last comma of a text.
pub fn find_last_comma(s: &str) -> (r: Option<usize>)
    ensures
        match r {
            Some(k) => k == last_comma(s.spec_bytes()) && k < s.spec_bytes().len()
                && s.spec_bytes()[k as int] == COMMA,
            None => last_comma(s.spec_bytes()) == -1,
        },
{
    let bytes = s.as_bytes();
    let mut i: usize = bytes.len();
    assert(bytes@.take(i as int) =~= bytes@);
    while i > 0
        invariant
            i <= bytes@.len(),
            bytes@ == s.spec_bytes(),
            last_comma(bytes@) == last_comma(bytes@.take(i as int)),
        decreases i,
    {
        if bytes[i - 1] == COMMA {
            return Some(i - 1);
        }
        proof {
            assert(bytes@.take(i as int).drop_last() =~= bytes@.take(i - 1));
        }
        i = i - 1;
    }
    None
}

/// Looks for the end of the first line of a text.
pub fn find_first_newline(s: &str) -> (k: usize)
    ensures
        k == first_newline(s.spec_bytes()),
        k <= s.spec_bytes().len(),
        k < s.spec_bytes().len() ==> s.spec_bytes()[k as int] == NEWLINE,
{
    let bytes = s.as_bytes();
    let mut i: usize = 0;
    while i < bytes.len()
        invariant
            i <= bytes@.len(),
            bytes@ == s.spec_bytes(),
            forall|j: int| 0 <= j < i ==> bytes@[j] != NEWLINE,
        decreases bytes@.len() - i,
    {
        if bytes[i] == NEWLINE {
            proof {
                lemma_first_newline(bytes@, i as int);
            }
            return i;
        }
        i = i + 1;
    }
    proof {
        lemma_first_newline(bytes@, i as int);
    }
    i
}

/// The lines of a text, in order.
pub fn split_lines<'a>(content: &'a str) -> (lines: Vec<&'a str>)
    ensures
        bytes_of(lines@) == lines_of(content.spec_bytes()),
{
    let mut lines: Vec<&'a str> = Vec::new();
    let mut rest: &'a str = content;
    assert(bytes_of(lines@) + lines_of(rest.spec_bytes()) =~= lines_of(content.spec_bytes()));
    while rest.as_bytes().len() > 0
        invariant
            bytes_of(lines@) + lines_of(rest.spec_bytes()) == lines_of(content.spec_bytes()),
        decreases rest.spec_bytes().len(),
    {
        let ghost before = bytes_of(lines@);
        let ghost bytes = rest.spec_bytes();
        let k = find_first_newline(rest);
        if k < rest.as_bytes().len() {
            let (line, tail) = cut_around(rest, k);
            if k > 0 && line.as_bytes()[k - 1] == CARRIAGE_RETURN {
                proof {
                    lemma_boundary_before(line, k - 1);
                }
                let (bare, _) = line.split_at(k - 1);
                assert(bare.spec_bytes() =~= first_line(bytes));
                lines.push(bare);
            } else {
                lines.push(line);
            }
            rest = tail;
        } else {
            assert(bytes.subrange(0, k as int) =~= bytes);
            lines.push(rest);
            proof {
                encode_utf8_valid_utf8(rest@);
                is_char_boundary_start_end_of_seq(bytes);
            }
            let (_, tail) = rest.split_at(k);
            rest = tail;
        }
        proof {
            assert(bytes_of(lines@) =~= before.push(first_line(bytes)));
            assert(rest.spec_bytes() =~= after_first_line(bytes));
            assert(before.push(first_line(bytes)) + lines_of(after_first_line(bytes)) =~= before
                + lines_of(bytes));
        }
    }
    assert(bytes_of(lines@) + lines_of(rest.spec_bytes()) =~= bytes_of(lines@));
    lines
}

/// A line cut at its last `n` commas: what stands before the first cut, and the fields.
pub fn split_record<'a>(line: &'a str, n: usize) -> (r: (&'a str, Vec<&'a str>))
    ensures
        r.0.spec_bytes() == split_fields(line.spec_bytes(), n as nat).0,
        bytes_of(r.1@) == split_fields(line.spec_bytes(), n as nat).1,
{
    let mut head: &'a str = line;
    let mut backwards: Vec<&'a str> = Vec::new();
    let ghost mut found: Seq<Seq<u8>> = Seq::empty();
    let mut left: usize = n;
    proof {
        assert(split_fields(head.spec_bytes(), left as nat).1 + found =~= split_fields(
            line.spec_bytes(),
            n as nat,
        ).1);
    }
    while left > 0
        invariant
            split_fields(head.spec_bytes(), left as nat).0 == split_fields(
                line.spec_bytes(),
                n as nat,
            ).0,
            split_fields(head.spec_bytes(), left as nat).1 + found == split_fields(
                line.spec_bytes(),
                n as nat,
            ).1,
            found.len() == backwards.len(),
            forall|i: int|
                0 <= i < found.len() ==> found[i] == (#[trigger] backwards[found.len() - 1
                    - i]).spec_bytes(),
        ensures
            left == 0 || last_comma(head.spec_bytes()) == -1,
        decreases left,
    {
        match find_last_comma(head) {
            None => {
                break ;
            },
            Some(k) => {
                let ghost bytes = head.spec_bytes();
                let ghost old_found = found;
                let (before, field) = cut_around(head, k);
                backwards.push(field);
                proof {
                    found = seq![field.spec_bytes()] + old_found;
                    let rest = split_fields(before.spec_bytes(), (left - 1) as nat);
                    assert(split_fields(bytes, left as nat).1 == rest.1.push(field.spec_bytes()));
                    assert(rest.1.push(field.spec_bytes()) + old_found =~= rest.1 + found);
                    assert forall|i: int| 0 <= i < found.len() implies found[i] == (
                    #[trigger] backwards[found.len() - 1 - i]).spec_bytes() by {
                        if i > 0 {
                            assert(found[i] == old_found[i - 1]);
                            assert(backwards[old_found.len() - 1 - (i - 1)].spec_bytes()
                                == old_found[i - 1]);
                        }
                    }
                }
                head = before;
                left = left - 1;
            },
        }
    }
    proof {
        assert(split_fields(head.spec_bytes(), left as nat).1 =~= Seq::<Seq<u8>>::empty());
        assert(Seq::<Seq<u8>>::empty() + found =~= found);
    }
    let mut fields: Vec<&'a str> = Vec::new();
    let mut i: usize = backwards.len();
    while i > 0
        invariant
            i <= backwards.len(),
            found.len() == backwards.len(),
            fields.len() == backwards.len() - i,
            forall|j: int|
                0 <= j < found.len() ==> found[j] == (#[trigger] backwards[found.len() - 1
                    - j]).spec_bytes(),
            forall|j: int| 0 <= j < fields.len() ==> (#[trigger] fields[j]).spec_bytes() == found[j],
        decreases i,
    {
        i = i - 1;
        proof {
            let j = found.len() - 1 - i;
            assert(found[j] == backwards[found.len() - 1 - j].spec_bytes());
        }
        fields.push(backwards[i]);
    }
    assert(bytes_of(fields@) =~= found);
    (head, fields)
}

} // verus!
