//! Lists of section numbers as a writer types them: decimal numbers with
//! commas between them and white space around them.

use vstd::prelude::*;

verus! {

/// Whether `c` is white space, as Unicode defines it.
pub open spec fn is_space(c: char) -> bool {
    let code = c as u32;
    ||| 0x09 <= code <= 0x0d
    ||| code == 0x20
    ||| code == 0x85
    ||| code == 0xa0
    ||| code == 0x1680
    ||| 0x2000 <= code <= 0x200a
    ||| code == 0x2028
    ||| code == 0x2029
    ||| code == 0x202f
    ||| code == 0x205f
    ||| code == 0x3000
}

/// Whether `c` is one of the digits `0` to `9`.
pub open spec fn is_digit(c: char) -> bool {
    0x30 <= c as u32 <= 0x39
}

/// The test whether a character is a digit.
pub open spec fn digits() -> spec_fn(char) -> bool {
    |c: char| is_digit(c)
}

/// The number that a run of digits stands for.
pub open spec fn value(run: Seq<char>) -> nat
    decreases run.len(),
{
    if run.len() == 0 {
        0
    } else {
        value(run.drop_last()) * 10 + (run.last() as u32 - 0x30) as nat
    }
}

/// Whether `item` is a number: a run of digits, with nothing but white space
/// before and after it.
pub open spec fn is_item(item: Seq<char>) -> bool {
    exists|start: int, end: int| is_item_at(item, start, end)
}

/// Whether `item` is a number whose digits run from `start` to `end`.
pub open spec fn is_item_at(item: Seq<char>, start: int, end: int) -> bool {
    &&& 0 <= start < end <= item.len()
    &&& forall|i: int| 0 <= i < start ==> is_space(#[trigger] item[i])
    &&& forall|i: int| start <= i < end ==> is_digit(#[trigger] item[i])
    &&& forall|i: int| end <= i < item.len() ==> is_space(#[trigger] item[i])
}

/// The number that `item` stands for.
pub open spec fn item_number(item: Seq<char>) -> nat {
    value(item.filter(digits()))
}

/// The place of the first comma in `text`, or the length of `text` where it
/// holds none.
pub open spec fn comma_index(text: Seq<char>) -> int
    decreases text.len(),
{
    if text.len() == 0 || text[0] == ',' {
        0
    } else {
        1 + comma_index(text.skip(1))
    }
}

/// The pieces into which the commas divide `text`. A text without a comma is
/// one piece, also where it is empty.
pub open spec fn pieces(text: Seq<char>) -> Seq<Seq<char>>
    decreases text.len(),
{
    let comma = comma_index(text);
    if 0 <= comma < text.len() {
        seq![text.take(comma)] + pieces(text.skip(comma + 1))
    } else {
        seq![text]
    }
}

/// Whether `text` is a well-formed list of section numbers: it is empty, or
/// each of its pieces is a number.
pub open spec fn is_section_list(text: Seq<char>) -> bool {
    text.len() == 0 || forall|k: int|
        0 <= k < pieces(text).len() ==> is_item(#[trigger] pieces(text)[k])
}

/// The section numbers that `items` name, in order. A zero names no section
/// and is passed over, and so is a number too large for the machine.
pub open spec fn numbers_of(items: Seq<Seq<char>>) -> Seq<usize>
    decreases items.len(),
{
    if items.len() == 0 {
        Seq::empty()
    } else {
        let number = item_number(items.last());
        if 1 <= number <= usize::MAX {
            numbers_of(items.drop_last()).push(number as usize)
        } else {
            numbers_of(items.drop_last())
        }
    }
}

/// The section numbers that `text` lists.
pub open spec fn listed_numbers(text: Seq<char>) -> Seq<usize> {
    numbers_of(pieces(text))
}

/// Whether `c` is white space.
pub fn is_space_char(c: char) -> (space: bool)
    ensures
        space == is_space(c),
{
    let code = c as u32;
    (0x09 <= code && code <= 0x0d) || code == 0x20 || code == 0x85 || code == 0xa0 || code
        == 0x1680 || (0x2000 <= code && code <= 0x200a) || code == 0x2028 || code == 0x2029
        || code == 0x202f || code == 0x205f || code == 0x3000
}

/// Whether `c` is a digit.
pub fn is_digit_char(c: char) -> (digit: bool)
    ensures
        digit == is_digit(c),
{
    let code = c as u32;
    0x30 <= code && code <= 0x39
}

/// The characters of `text`.
pub fn chars_of(text: &str) -> (chars: Vec<char>)
    ensures
        chars@ == text@,
{
    let mut chars: Vec<char> = Vec::new();
    for c in it: text.chars()
        invariant
            it.seq() == text@,
            chars@ == text@.take(it.index() as int),
    {
        chars.push(c);
        assert(text@.take(it.index() + 1) =~= text@.take(it.index() as int).push(c));
    }
    assert(text@.take(text@.len() as int) =~= text@);
    chars
}

/// What is kept of a sequence in which the wanted items stand side by side is
/// that run of items.
proof fn lemma_filter_run<A>(items: Seq<A>, wanted: spec_fn(A) -> bool, start: int, end: int)
    requires
        0 <= start <= end <= items.len(),
        forall|i: int| start <= i < end ==> wanted(#[trigger] items[i]),
        forall|i: int| 0 <= i < start || end <= i < items.len() ==> !wanted(#[trigger] items[i]),
    ensures
        items.filter(wanted) == items.subrange(start, end),
    decreases items.len(),
{
    reveal(Seq::filter);
    if items.len() == 0 {
        assert(items.filter(wanted) =~= items.subrange(start, end));
    } else {
        let rest = items.drop_last();
        if start == end {
            lemma_filter_run(rest, wanted, 0, 0);
            assert(!wanted(items[items.len() - 1]));
            assert(items.filter(wanted) =~= items.subrange(start, end));
        } else if end == items.len() {
            lemma_filter_run(rest, wanted, start, end - 1);
            assert(wanted(items[items.len() - 1]));
            assert(rest.subrange(start, end - 1).push(items.last()) =~= items.subrange(start, end));
        } else {
            lemma_filter_run(rest, wanted, start, end);
            assert(!wanted(items[items.len() - 1]));
            assert(rest.subrange(start, end) =~= items.subrange(start, end));
        }
    }
}

/// The digits of a number are those of its run.
proof fn lemma_item_number(item: Seq<char>, start: int, end: int)
    requires
        is_item_at(item, start, end),
    ensures
        item_number(item) == value(item.subrange(start, end)),
{
    assert forall|i: int| start <= i < end implies digits()(#[trigger] item[i]) by {
        assert(is_digit(item[i]));
    }
    assert forall|i: int| 0 <= i < start || end <= i < item.len() implies !digits()(
        #[trigger] item[i],
    ) by {
        assert(is_space(item[i]));
    }
    lemma_filter_run(item, digits(), start, end);
}

/// A number has its digits in one place only.
proof fn lemma_item_once(item: Seq<char>, start: int, end: int, other_start: int, other_end: int)
    requires
        is_item_at(item, start, end),
        0 <= other_start <= other_end <= item.len(),
        forall|i: int| 0 <= i < other_start ==> is_space(#[trigger] item[i]),
        other_start < item.len() ==> !is_space(item[other_start]),
        forall|i: int| other_start <= i < other_end ==> is_digit(#[trigger] item[i]),
        other_end < item.len() ==> !is_digit(item[other_end]),
    ensures
        other_start == start,
        other_end == end,
{
    if other_start < start {
        assert(is_space(item[other_start]));
    }
    if other_start > start {
        assert(is_space(item[start]));
        assert(is_digit(item[start]));
    }
    if other_end < end {
        assert(is_digit(item[other_end]));
    }
    if other_end > end {
        assert(is_digit(item[end]));
        assert(is_space(item[end]));
    }
}

/// Where the first comma stands.
proof fn lemma_comma_index(text: Seq<char>, comma: int)
    requires
        0 <= comma <= text.len(),
        forall|i: int| 0 <= i < comma ==> #[trigger] text[i] != ',',
        comma < text.len() ==> text[comma] == ',',
    ensures
        comma_index(text) == comma,
    decreases comma,
{
    if comma > 0 {
        let rest = text.skip(1);
        assert forall|i: int| 0 <= i < comma - 1 implies #[trigger] rest[i] != ',' by {
            assert(rest[i] == text[i + 1]);
        }
        lemma_comma_index(rest, comma - 1);
        assert(text[0] != ',');
    }
}

/// What one piece of a list says.
#[derive(Clone, Copy, Debug, PartialEq, Eq)]
pub enum Item {
    /// The piece is no number.
    Malformed,
    /// The piece is a number that names no section: zero, or a number too
    /// large for the machine.
    Nothing,
    /// The piece is the number of a section.
    Section(usize),
}

/// What the piece `item` says.
pub open spec fn item_read(item: Seq<char>) -> Item {
    if !is_item(item) {
        Item::Malformed
    } else if 1 <= item_number(item) <= usize::MAX {
        Item::Section(item_number(item) as usize)
    } else {
        Item::Nothing
    }
}

/// Reads the piece that lies in `chars` from `from` up to `to`.
pub fn read_item(chars: &Vec<char>, from: usize, to: usize) -> (item: Item)
    requires
        from <= to <= chars.len(),
    ensures
        item == item_read(chars@.subrange(from as int, to as int)),
{
    let ghost piece = chars@.subrange(from as int, to as int);
    let mut i = from;
    while i < to && is_space_char(chars[i])
        invariant
            from <= i <= to <= chars.len(),
            piece == chars@.subrange(from as int, to as int),
            forall|k: int| 0 <= k < i - from ==> is_space(#[trigger] piece[k]),
        decreases to - i,
    {
        i += 1;
    }
    let start = i;
    let mut number: usize = 0;
    let mut fits = true;
    while i < to && is_digit_char(chars[i])
        invariant
            from <= start <= i <= to <= chars.len(),
            piece == chars@.subrange(from as int, to as int),
            forall|k: int| start - from <= k < i - from ==> is_digit(#[trigger] piece[k]),
            fits ==> number == value(piece.subrange(start - from, i - from)),
            !fits ==> value(piece.subrange(start - from, i - from)) > usize::MAX,
        decreases to - i,
    {
        let digit = (chars[i] as u32 - 0x30) as usize;
        proof {
            let run = piece.subrange(start - from, i + 1 - from);
            assert(run.drop_last() =~= piece.subrange(start - from, i - from));
            assert(run.last() == chars[i as int]);
        }
        if fits && number <= (usize::MAX - digit) / 10 {
            number = number * 10 + digit;
        } else {
            fits = false;
        }
        i += 1;
    }
    let end = i;
    while i < to && is_space_char(chars[i])
        invariant
            from <= end <= i <= to <= chars.len(),
            piece == chars@.subrange(from as int, to as int),
            forall|k: int| end - from <= k < i - from ==> is_space(#[trigger] piece[k]),
        decreases to - i,
    {
        i += 1;
    }
    proof {
        if is_item(piece) {
            let (s, e) = choose|s: int, e: int| is_item_at(piece, s, e);
            lemma_item_once(piece, s, e, start - from, end - from);
            lemma_item_number(piece, s, e);
            if i < to {
                assert(is_space(piece[i - from]));
            }
        }
        if start < end && i == to {
            assert(is_item_at(piece, start - from, end - from));
            lemma_item_number(piece, start - from, end - from);
        }
    }
    if start < end && i == to {
        if fits && number != 0 {
            Item::Section(number)
        } else {
            Item::Nothing
        }
    } else {
        Item::Malformed
    }
}

/// Reads a list of section numbers. A well-formed list yields the numbers that
/// it names, in order, the empty text none; any other text yields nothing.
pub fn parse_section_list(text: &str) -> (numbers: Option<Vec<usize>>)
    ensures
        numbers is Some <==> is_section_list(text@),
        numbers matches Some(listed) ==> listed@ == listed_numbers(text@),
{
    let chars = chars_of(text);
    let count = chars.len();
    let mut listed: Vec<usize> = Vec::new();
    let mut well_formed = true;
    let mut from: usize = 0;
    let mut more = true;
    let ghost mut done: Seq<Seq<char>> = Seq::empty();
    proof {
        assert(text@.skip(0) =~= text@);
        assert(done + pieces(text@) =~= pieces(text@));
    }
    while more
        invariant
            chars@ == text@,
            count == chars.len(),
            from <= count,
            more ==> pieces(text@) == done + pieces(text@.skip(from as int)),
            !more ==> pieces(text@) == done && done.len() > 0,
            well_formed <==> forall|k: int| 0 <= k < done.len() ==> is_item(#[trigger] done[k]),
            well_formed ==> listed@ == numbers_of(done),
        decreases
                if more {
                    count - from + 1
                } else {
                    0
                },
    {
        let mut to = from;
        while to < count && chars[to] != ','
            invariant
                from <= to <= count == chars.len(),
                forall|k: int| from <= k < to ==> #[trigger] chars[k] != ',',
            decreases count - to,
        {
            to += 1;
        }
        let ghost rest = text@.skip(from as int);
        let ghost piece = text@.subrange(from as int, to as int);
        proof {
            assert forall|i: int| 0 <= i < to - from implies #[trigger] rest[i] != ',' by {
                assert(rest[i] == chars[from + i]);
            }
            lemma_comma_index(rest, to - from);
            assert(rest.take(to - from) =~= piece);
            if to < count {
                assert(rest.skip(to - from + 1) =~= text@.skip(to + 1));
                assert(done + pieces(rest) =~= done.push(piece) + pieces(text@.skip(to + 1)));
            } else {
                assert(rest =~= piece);
                assert(done + pieces(rest) =~= done.push(piece));
            }
            assert(done.push(piece).drop_last() =~= done);
        }
        match read_item(&chars, from, to) {
            Item::Malformed => {
                well_formed = false;
            },
            Item::Nothing => {},
            Item::Section(number) => {
                if well_formed {
                    listed.push(number);
                }
            },
        }
        proof {
            let longer = done.push(piece);
            if forall|k: int| 0 <= k < done.len() ==> is_item(#[trigger] done[k]) {
                if is_item(piece) {
                    assert forall|k: int| 0 <= k < longer.len() implies is_item(
                        #[trigger] longer[k],
                    ) by {
                        if k < done.len() {
                            assert(longer[k] == done[k]);
                        }
                    }
                } else {
                    assert(longer[done.len() as int] == piece);
                }
            } else {
                let k = choose|k: int| 0 <= k < done.len() && !is_item(#[trigger] done[k]);
                assert(longer[k] == done[k]);
            }
            done = longer;
        }
        if to == count {
            more = false;
        } else {
            from = to + 1;
        }
    }
    if count == 0 {
        proof {
            assert(pieces(text@) =~= seq![text@]);
            assert(done =~= seq![text@]);
            assert(done.drop_last() =~= Seq::<Seq<char>>::empty());
            assert(text@.filter(digits()) =~= Seq::<char>::empty()) by {
                reveal(Seq::filter);
            }
            assert(numbers_of(done.drop_last()) =~= Seq::<usize>::empty());
            assert(numbers_of(done) =~= Seq::<usize>::empty());
        }
        Some(Vec::new())
    } else if well_formed {
        Some(listed)
    } else {
        None
    }
}

} // verus!
