//! The supplementary groups of a process, read from the text of its status
//! record: the line that starts with `Groups:` lists them after its first
//! eight bytes, separated by spaces.

use vstd::prelude::*;

verus! {

/// The byte is white space: a space, or one of tab, line feed, vertical tab,
/// form feed and carriage return.
pub open spec fn is_space_byte(b: u8) -> bool {
    b == 0x20 || (0x09 <= b <= 0x0D)
}

/// The field holds nothing but white space.
pub open spec fn is_blank_field(field: Seq<u8>) -> bool {
    forall|i: int| 0 <= i < field.len() ==> is_space_byte(#[trigger] field[i])
}

/// Every byte is a decimal digit.
pub open spec fn all_digits(d: Seq<u8>) -> bool {
    forall|i: int| 0 <= i < d.len() ==> 0x30 <= #[trigger] d[i] <= 0x39
}

/// The number that the decimal digits spell.
pub open spec fn digits_value(d: Seq<u8>) -> nat
    decreases d.len(),
{
    if d.len() == 0 {
        0
    } else {
        digits_value(d.drop_last()) * 10 + (d.last() - 0x30) as nat
    }
}

/// The digits of a field: the field without a leading `+`.
pub open spec fn digits_of(field: Seq<u8>) -> Seq<u8> {
    if field.len() > 0 && field[0] == 0x2B {
        field.skip(1)
    } else {
        field
    }
}

/// The number that a field spells, if it spells one that fits in 32 bits: an
/// optional `+`, then one or more decimal digits.
pub open spec fn field_value(field: Seq<u8>) -> Option<u32> {
    let d = digits_of(field);
    if d.len() > 0 && all_digits(d) && digits_value(d) <= u32::MAX {
        Some(digits_value(d) as u32)
    } else {
        None
    }
}

/// The fields of a text: the stretches between its spaces. A text with `n`
/// spaces has `n + 1` fields, some of them empty perhaps.
pub open spec fn fields(s: Seq<u8>) -> Seq<Seq<u8>>
    decreases s.len(),
{
    if s.len() == 0 {
        seq![Seq::<u8>::empty()]
    } else {
        let before = fields(s.drop_last());
        if s.last() == 0x20 {
            before.push(Seq::<u8>::empty())
        } else {
            before.update(before.len() - 1, before.last().push(s.last()))
        }
    }
}

/// The numbers that the fields spell, in order, blank fields left out; none
/// where a field that is not blank spells no number.
pub open spec fn numbers_of(f: Seq<Seq<u8>>) -> Option<Seq<u32>>
    decreases f.len(),
{
    if f.len() == 0 {
        Some(Seq::<u32>::empty())
    } else {
        match numbers_of(f.drop_last()) {
            None => None,
            Some(found) => if is_blank_field(f.last()) {
                Some(found)
            } else {
                match field_value(f.last()) {
                    Some(v) => Some(found.push(v)),
                    None => None,
                }
            },
        }
    }
}

/// The line starts with `Groups:`.
pub open spec fn is_groups_line(line: Seq<u8>) -> bool {
    &&& line.len() >= 7
    &&& line[0] == 0x47
    &&& line[1] == 0x72
    &&& line[2] == 0x6F
    &&& line[3] == 0x75
    &&& line[4] == 0x70
    &&& line[5] == 0x73
    &&& line[6] == 0x3A
}

/// The groups that a `Groups:` line lists after its first eight bytes; none
/// where the line is shorter than that or a field spells no number.
pub open spec fn groups_of_line(line: Seq<u8>) -> Option<Seq<u32>> {
    if line.len() < 8 {
        None
    } else {
        numbers_of(fields(line.skip(8)))
    }
}

/// The fields of a text are at least one.
proof fn lemma_fields_nonempty(s: Seq<u8>)
    ensures
        fields(s).len() >= 1,
    decreases s.len(),
{
    if s.len() > 0 {
        lemma_fields_nonempty(s.drop_last());
    }
}

/// Where the fields before the last of a shorter text spell no list of
/// numbers, neither do those of a longer one, nor do all its fields.
proof fn lemma_failure_stays(s: Seq<u8>, i: int, j: int)
    requires
        0 <= i <= j <= s.len(),
        numbers_of(fields(s.take(i)).drop_last()) is None,
    ensures
        numbers_of(fields(s.take(j)).drop_last()) is None,
        numbers_of(fields(s.take(j))) is None,
    decreases j - i,
{
    lemma_fields_nonempty(s.take(j));
    if i < j {
        lemma_failure_stays(s, i, j - 1);
        let shorter = s.take(j - 1);
        let longer = s.take(j);
        assert(longer.drop_last() =~= shorter);
        lemma_fields_nonempty(shorter);
        let before = fields(shorter);
        if longer.last() == 0x20 {
            assert(fields(longer).drop_last() =~= before);
        } else {
            assert(fields(longer).drop_last() =~= before.drop_last());
        }
    }
}

/// With all digits, the digits so far spell no more than all of them.
proof fn lemma_digits_grow(d: Seq<u8>, k: int)
    requires
        0 <= k <= d.len(),
        all_digits(d),
    ensures
        digits_value(d.take(k)) <= digits_value(d),
    decreases d.len() - k,
{
    if k < d.len() {
        lemma_digits_grow(d, k + 1);
        assert(d.take(k + 1).drop_last() =~= d.take(k));
    } else {
        assert(d.take(k) =~= d);
    }
}

/// What a field holds.
#[derive(Clone, Copy, Debug, PartialEq, Eq, Structural)]
pub enum Field {
    /// Nothing but white space.
    Blank,
    /// A number.
    Number(u32),
    /// Neither.
    Malformed,
}

/// What the field `s[start..end]` holds.
fn read_field(s: &[u8], start: usize, end: usize) -> (r: Field)
    requires
        start <= end <= s@.len(),
    ensures
        r is Blank <==> is_blank_field(s@.subrange(start as int, end as int)),
        r is Number ==> field_value(s@.subrange(start as int, end as int)) == Some(r->Number_0),
        r is Malformed ==> field_value(s@.subrange(start as int, end as int)) is None,
{
    let ghost field = s@.subrange(start as int, end as int);
    let mut blank: bool = true;
    let ghost mut witness: int = 0;
    let mut i: usize = start;
    while i < end
        invariant
            start <= i <= end <= s@.len(),
            field == s@.subrange(start as int, end as int),
            blank ==> forall|k: int| 0 <= k < i - start ==> is_space_byte(#[trigger] field[k]),
            !blank ==> 0 <= witness < i - start && !is_space_byte(field[witness]),
        decreases end - i,
    {
        let b: u8 = s[i];
        assert(b == field[i - start]);
        if !(b == 0x20 || (0x09 <= b && b <= 0x0D)) {
            blank = false;
            proof {
                witness = i - start;
            }
        }
        i = i + 1;
    }
    if blank {
        return Field::Blank;
    }
    assert(!is_blank_field(field));
    let first: usize = if s[start] == 0x2B {
        start + 1
    } else {
        start
    };
    let ghost d = digits_of(field);
    proof {
        assert(field[0] == s@[start as int]);
        assert(d =~= s@.subrange(first as int, end as int));
    }
    if first == end {
        return Field::Malformed;
    }
    let mut value: u64 = 0;
    let mut k: usize = first;
    while k < end
        invariant
            start <= first <= k <= end <= s@.len(),
            field == s@.subrange(start as int, end as int),
            !is_blank_field(field),
            d == digits_of(field),
            d == s@.subrange(first as int, end as int),
            all_digits(d.take(k - first)),
            value == digits_value(d.take(k - first)),
            value <= u32::MAX,
        decreases end - k,
    {
        let b: u8 = s[k];
        let ghost sofar = d.take(k - first);
        let ghost next = d.take(k - first + 1);
        proof {
            assert(b == d[k - first]);
            assert(next.drop_last() =~= sofar);
            assert(next.last() == b);
        }
        if b < 0x30 || b > 0x39 {
            proof {
                assert(!(0x30 <= d[k - first] <= 0x39));
            }
            return Field::Malformed;
        }
        let grown: u64 = value * 10 + (b - 0x30) as u64;
        proof {
            assert forall|j: int| 0 <= j < next.len() implies 0x30 <= #[trigger] next[j] <= 0x39 by {
                if j < sofar.len() {
                    assert(sofar[j] == next[j]);
                }
            }
            assert(grown == digits_value(next));
        }
        if grown > 0xFFFF_FFFF {
            proof {
                if all_digits(d) {
                    lemma_digits_grow(d, k - first + 1);
                }
            }
            return Field::Malformed;
        }
        value = grown;
        k = k + 1;
    }
    proof {
        assert(d.take(k - first) =~= d);
    }
    Field::Number(value as u32)
}

/// Whether the line starts with `Groups:`.
pub fn starts_groups_line(line: &[u8]) -> (r: bool)
    ensures
        r == is_groups_line(line@),
{
    line.len() >= 7 && line[0] == 0x47 && line[1] == 0x72 && line[2] == 0x6F && line[3] == 0x75
        && line[4] == 0x70 && line[5] == 0x73 && line[6] == 0x3A
}

/// The groups that the `Groups:` line `line` lists; `None` where the line
/// ends before its ninth byte or one of its fields spells no number.
pub fn get_groups(line: &[u8]) -> (r: Option<Vec<u32>>)
    ensures
        r is Some <==> groups_of_line(line@) is Some,
        r is Some ==> r->0@ == groups_of_line(line@)->0,
{
    if line.len() < 8 {
        return None;
    }
    let ghost text = line@.skip(8);
    let mut found: Vec<u32> = Vec::new();
    let mut start: usize = 8;
    let mut i: usize = 8;
    proof {
        assert(text.take(0) =~= Seq::<u8>::empty());
        assert(fields(text.take(0)).drop_last() =~= Seq::<Seq<u8>>::empty());
        assert(fields(text.take(0)).last() =~= line@.subrange(8, 8));
    }
    while i < line.len()
        invariant
            8 <= start <= i <= line@.len(),
            text == line@.skip(8),
            fields(text.take(i - 8)).len() >= 1,
            fields(text.take(i - 8)).last() == line@.subrange(start as int, i as int),
            numbers_of(fields(text.take(i - 8)).drop_last()) == Some(found@),
        decreases line@.len() - i,
    {
        let ghost shorter = text.take(i - 8);
        let ghost longer = text.take(i - 8 + 1);
        proof {
            assert(longer.drop_last() =~= shorter);
            assert(longer.last() == line@[i as int]);
            lemma_fields_nonempty(longer);
        }
        if line[i] == 0x20 {
            proof {
                assert(fields(longer).drop_last() =~= fields(shorter));
                assert(fields(longer).last() =~= line@.subrange(i + 1, i + 1));
                assert(fields(shorter) =~= fields(shorter).drop_last().push(fields(shorter).last()));
            }
            match read_field(line, start, i) {
                Field::Blank => {},
                Field::Number(v) => {
                    found.push(v);
                },
                Field::Malformed => {
                    proof {
                        assert(numbers_of(fields(longer).drop_last()) is None);
                        assert(text.take(text.len() as int) =~= text);
                        lemma_failure_stays(text, i - 8 + 1, text.len() as int);
                    }
                    return None;
                },
            }
            start = i + 1;
        } else {
            proof {
                assert(fields(longer).drop_last() =~= fields(shorter).drop_last());
                assert(fields(longer).last() =~= line@.subrange(start as int, i + 1));
            }
        }
        i = i + 1;
    }
    proof {
        assert(text.take(i - 8) =~= text);
        assert(fields(text) =~= fields(text).drop_last().push(fields(text).last()));
    }
    match read_field(line, start, i) {
        Field::Blank => {},
        Field::Number(v) => {
            found.push(v);
        },
        Field::Malformed => {
            return None;
        },
    }
    Some(found)
}

} // verus!
