//! The text that names a board on the command line: a kind and its numbers,
//! joined by colons, as in `grid:19:19`.

use vstd::prelude::*;

verus! {

/// The kinds of boards that have a name.
#[derive(Clone, Copy, Debug, PartialEq, Eq, Structural)]
pub enum BoardKind {
    Square,
    Diamond,
    Grid,
    Loop,
    Hex,
    Honeycomb,
    Sixfourthree,
    Turtle,
    Wheels,
    Donut,
    Conga,
    Pack,
    Pack2,
}

/// A kind of board with the numbers that size it.
pub struct Shape {
    pub kind: BoardKind,
    pub args: Vec<usize>,
}

/// Why a text names no board.
#[derive(Clone, Copy, Debug, PartialEq, Eq, Structural)]
pub enum ShapeError {
    /// The kind exists but takes `takes` numbers, not `given`.
    WrongCount { kind: BoardKind, takes: usize, given: usize },
    /// The field at `index`, counted from 0 after the kind, is no number.
    NotANumber { index: usize },
    /// No kind has this name.
    NoSuchKind,
}

/// The fields of a text read up to `upto`: those that a colon has ended,
/// and the one that is still open.
pub open spec fn split_state(text: Seq<char>, upto: nat) -> (Seq<Seq<char>>, Seq<char>)
    decreases upto,
{
    if upto == 0 {
        (Seq::empty(), Seq::empty())
    } else {
        let (done, open) = split_state(text, (upto - 1) as nat);
        if text[upto - 1] == ':' {
            (done.push(open), Seq::empty())
        } else {
            (done, open.push(text[upto - 1]))
        }
    }
}

/// The fields of a text, which colons separate. There is always one.
pub open spec fn fields(text: Seq<char>) -> Seq<Seq<char>> {
    let (done, open) = split_state(text, text.len());
    done.push(open)
}

/// The value of a decimal digit.
pub open spec fn digit_of(c: char) -> Option<nat> {
    match c {
        '0' => Some(0),
        '1' => Some(1),
        '2' => Some(2),
        '3' => Some(3),
        '4' => Some(4),
        '5' => Some(5),
        '6' => Some(6),
        '7' => Some(7),
        '8' => Some(8),
        '9' => Some(9),
        _ => None,
    }
}

/// The value of a run of decimal digits; `None` where one is no digit.
pub open spec fn digits_value(text: Seq<char>) -> Option<nat>
    decreases text.len(),
{
    if text.len() == 0 {
        Some(0)
    } else {
        match (digits_value(text.drop_last()), digit_of(text.last())) {
            (Some(v), Some(d)) => Some(10 * v + d),
            _ => None,
        }
    }
}

/// The number that a field stands for: decimal digits, at least one, after
/// an optional plus sign, with a value that the machine holds.
pub open spec fn number(text: Seq<char>) -> Option<usize> {
    let body = if text.len() > 0 && text[0] == '+' {
        text.skip(1)
    } else {
        text
    };
    if body.len() == 0 {
        None
    } else {
        match digits_value(body) {
            Some(v) if v <= usize::MAX => Some(v as usize),
            _ => None,
        }
    }
}

/// The kind with the given name.
pub open spec fn kind_named(name: Seq<char>) -> Option<BoardKind> {
    if name == "square"@ {
        Some(BoardKind::Square)
    } else if name == "diamond"@ {
        Some(BoardKind::Diamond)
    } else if name == "grid"@ {
        Some(BoardKind::Grid)
    } else if name == "loop"@ {
        Some(BoardKind::Loop)
    } else if name == "hex"@ {
        Some(BoardKind::Hex)
    } else if name == "honeycomb"@ {
        Some(BoardKind::Honeycomb)
    } else if name == "sixfourthree"@ {
        Some(BoardKind::Sixfourthree)
    } else if name == "turtle"@ {
        Some(BoardKind::Turtle)
    } else if name == "wheels"@ {
        Some(BoardKind::Wheels)
    } else if name == "donut"@ {
        Some(BoardKind::Donut)
    } else if name == "conga"@ {
        Some(BoardKind::Conga)
    } else if name == "pack"@ {
        Some(BoardKind::Pack)
    } else if name == "pack2"@ {
        Some(BoardKind::Pack2)
    } else {
        None
    }
}

impl BoardKind {
    /// How many numbers the kind takes.
    pub open spec fn takes(self) -> nat {
        match self {
            BoardKind::Grid | BoardKind::Turtle | BoardKind::Wheels => 2,
            BoardKind::Donut => 4,
            BoardKind::Pack | BoardKind::Pack2 => 0,
            _ => 1,
        }
    }

    /// How many numbers the kind takes.
    pub fn arity(&self) -> (count: usize)
        ensures
            count == self.takes(),
    {
        match self {
            BoardKind::Grid | BoardKind::Turtle | BoardKind::Wheels => 2,
            BoardKind::Donut => 4,
            BoardKind::Pack | BoardKind::Pack2 => 0,
            _ => 1,
        }
    }
}

/// The first of the fields from `from` on that is no number, if there is
/// one.
pub open spec fn first_bad(parts: Seq<Seq<char>>, from: int) -> Option<int>
    decreases parts.len() - from,
{
    if from < 0 || from >= parts.len() {
        None
    } else if number(parts[from]) is None {
        Some(from)
    } else {
        first_bad(parts, from + 1)
    }
}

/// What a text names: the kind by its first field, and a number by each
/// further field. A kind without that name comes first among the errors,
/// a wrong count of numbers before a field that is no number, and an
/// earlier such field before a later one.
pub open spec fn shape_of(text: Seq<char>) -> Result<(BoardKind, Seq<usize>), ShapeError> {
    let parts = fields(text);
    let rest = parts.skip(1);
    match kind_named(parts[0]) {
        None => Err(ShapeError::NoSuchKind),
        Some(kind) => if rest.len() != kind.takes() {
            Err(ShapeError::WrongCount { kind, takes: kind.takes() as usize, given: rest.len() as usize })
        } else {
            match first_bad(rest, 0) {
                Some(index) => Err(ShapeError::NotANumber { index: index as usize }),
                None => Ok((kind, Seq::new(rest.len(), |i: int| number(rest[i]).unwrap()))),
            }
        },
    }
}

/// What a list of fields holds.
pub open spec fn texts(parts: Seq<Vec<char>>) -> Seq<Seq<char>> {
    Seq::new(parts.len(), |i: int| parts[i]@)
}

/// A run of digits is worth no less than its beginning.
proof fn lemma_digits_grow(text: Seq<char>, k: int)
    requires
        0 <= k <= text.len(),
        digits_value(text) is Some,
    ensures
        digits_value(text.take(k)) is Some,
        digits_value(text.take(k)).unwrap() <= digits_value(text).unwrap(),
    decreases text.len(),
{
    if k == text.len() {
        assert(text.take(k) =~= text);
    } else {
        lemma_digits_grow(text.drop_last(), k);
        assert(text.drop_last().take(k) =~= text.take(k));
    }
}

/// A run with a character that is no digit has no value.
proof fn lemma_digits_stop(text: Seq<char>, k: int)
    requires
        0 <= k < text.len(),
        digit_of(text[k]) is None,
    ensures
        digits_value(text) is None,
    decreases text.len(),
{
    if k < text.len() - 1 {
        lemma_digits_stop(text.drop_last(), k);
    }
}

fn digit(c: char) -> (d: Option<usize>)
    ensures
        match d {
            Some(v) => digit_of(c) == Some(v as nat) && v <= 9,
            None => digit_of(c) is None,
        },
{
    match c {
        '0' => Some(0),
        '1' => Some(1),
        '2' => Some(2),
        '3' => Some(3),
        '4' => Some(4),
        '5' => Some(5),
        '6' => Some(6),
        '7' => Some(7),
        '8' => Some(8),
        '9' => Some(9),
        _ => None,
    }
}

/// The number that a field stands for.
pub fn parse_number(text: &Vec<char>) -> (value: Option<usize>)
    ensures
        value == number(text@),
{
    let start: usize = if text.len() > 0 && text[0] == '+' { 1 } else { 0 };
    if start == text.len() {
        return None;
    }
    let ghost body = text@.skip(start as int);
    proof {
        assert(text@.skip(0) =~= text@);
        assert(body.take(0) =~= Seq::<char>::empty());
    }
    let mut value: usize = 0;
    let mut i: usize = start;
    while i < text.len()
        invariant
            start <= i <= text@.len(),
            start < text@.len(),
            body == text@.skip(start as int),
            body == (if text@.len() > 0 && text@[0] == '+' {
                text@.skip(1)
            } else {
                text@
            }),
            digits_value(body.take(i - start)) == Some(value as nat),
        decreases text@.len() - i,
    {
        let ghost k = i - start;
        proof {
            assert(body.take(k + 1).drop_last() =~= body.take(k));
            assert(body.take(k + 1).last() == text@[i as int]);
            assert(body[k] == text@[i as int]);
        }
        match digit(text[i]) {
            None => {
                proof {
                    lemma_digits_stop(body, k);
                }
                return None;
            },
            Some(d) => {
                if value > (usize::MAX - d) / 10 {
                    proof {
                        if digits_value(body) is Some {
                            lemma_digits_grow(body, k + 1);
                        }
                    }
                    return None;
                }
                value = value * 10 + d;
            },
        }
        i += 1;
    }
    assert(body.take(i - start) =~= body);
    Some(value)
}

/// The fields of a text.
pub fn split_fields(text: &str) -> (parts: Vec<Vec<char>>)
    ensures
        texts(parts@) == fields(text@),
{
    let len = text.unicode_len();
    let mut done: Vec<Vec<char>> = Vec::new();
    let mut open: Vec<char> = Vec::new();
    let mut i: usize = 0;
    while i < len
        invariant
            len == text@.len(),
            i <= len,
            (texts(done@), open@) == split_state(text@, i as nat),
        decreases len - i,
    {
        let c = text.get_char(i);
        let ghost before = texts(done@);
        if c == ':' {
            done.push(open);
            open = Vec::new();
            assert(texts(done@) =~= before.push(split_state(text@, i as nat).1));
        } else {
            open.push(c);
        }
        i += 1;
    }
    let ghost before = texts(done@);
    done.push(open);
    assert(texts(done@) =~= before.push(split_state(text@, len as nat).1));
    done
}

fn same_text(a: &Vec<char>, b: &str) -> (same: bool)
    ensures
        same == (a@ == b@),
{
    let len = b.unicode_len();
    if a.len() != len {
        return false;
    }
    let mut i: usize = 0;
    while i < len
        invariant
            len == b@.len(),
            a@.len() == len,
            i <= len,
            forall|j: int| 0 <= j < i ==> a@[j] == b@[j],
        decreases len - i,
    {
        if a[i] != b.get_char(i) {
            return false;
        }
        i += 1;
    }
    assert(a@ =~= b@);
    true
}

/// The kind with the given name.
pub fn kind_of(name: &Vec<char>) -> (kind: Option<BoardKind>)
    ensures
        kind == kind_named(name@),
{
    if same_text(name, "square") {
        Some(BoardKind::Square)
    } else if same_text(name, "diamond") {
        Some(BoardKind::Diamond)
    } else if same_text(name, "grid") {
        Some(BoardKind::Grid)
    } else if same_text(name, "loop") {
        Some(BoardKind::Loop)
    } else if same_text(name, "hex") {
        Some(BoardKind::Hex)
    } else if same_text(name, "honeycomb") {
        Some(BoardKind::Honeycomb)
    } else if same_text(name, "sixfourthree") {
        Some(BoardKind::Sixfourthree)
    } else if same_text(name, "turtle") {
        Some(BoardKind::Turtle)
    } else if same_text(name, "wheels") {
        Some(BoardKind::Wheels)
    } else if same_text(name, "donut") {
        Some(BoardKind::Donut)
    } else if same_text(name, "conga") {
        Some(BoardKind::Conga)
    } else if same_text(name, "pack") {
        Some(BoardKind::Pack)
    } else if same_text(name, "pack2") {
        Some(BoardKind::Pack2)
    } else {
        None
    }
}

/// Reads the text that names a board.
pub fn parse_shape(text: &str) -> (shape: Result<Shape, ShapeError>)
    ensures
        match shape {
            Ok(s) => shape_of(text@) == Ok::<(BoardKind, Seq<usize>), ShapeError>((s.kind, s.args@)),
            Err(e) => shape_of(text@) == Err::<(BoardKind, Seq<usize>), ShapeError>(e),
        },
{
    let parts = split_fields(text);
    let ghost all = texts(parts@);
    let ghost rest = all.skip(1);
    assert(all[0] == parts@[0]@);
    let kind = match kind_of(&parts[0]) {
        None => {
            return Err(ShapeError::NoSuchKind);
        },
        Some(kind) => kind,
    };
    let given = parts.len() - 1;
    let takes = kind.arity();
    if given != takes {
        return Err(ShapeError::WrongCount { kind, takes, given });
    }
    let mut args: Vec<usize> = Vec::new();
    let mut i: usize = 0;
    while i < given
        invariant
            all == texts(parts@),
            rest == all.skip(1),
            given == parts@.len() - 1,
            all == fields(text@),
            kind_named(all[0]) == Some(kind),
            rest.len() == kind.takes(),
            rest.len() == given,
            i <= given,
            args@.len() == i,
            first_bad(rest, 0) == first_bad(rest, i as int),
            forall|j: int| 0 <= j < i ==> number(rest[j]) == Some(#[trigger] args@[j]),
        decreases given - i,
    {
        assert(rest[i as int] == parts@[i + 1]@);
        match parse_number(&parts[i + 1]) {
            None => {
                assert(first_bad(rest, i as int) == Some(i as int));
                return Err(ShapeError::NotANumber { index: i });
            },
            Some(value) => {
                args.push(value);
            },
        }
        i += 1;
    }
    assert(args@ =~= Seq::new(rest.len(), |i: int| number(rest[i]).unwrap()));
    Ok(Shape { kind, args })
}

} // verus!
