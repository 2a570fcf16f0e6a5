use vstd::prelude::*;

use crate::game::backgammon::{
    board, compare_plays, dice_ok, lemma_sorted_version_unique, lists_longest_plays, play_of, sorts_longest,
    spec_board, Backgammon, Location, Move, Point, Roll, SingleMove, StackHeight, State,
};

verus! {

/// The decimal digit for `d` (below ten).
pub open spec fn digit(d: nat) -> char {
    if d == 0 { '0' } else if d == 1 { '1' } else if d == 2 { '2' } else if d == 3 { '3' }
    else if d == 4 { '4' } else if d == 5 { '5' } else if d == 6 { '6' } else if d == 7 { '7' }
    else if d == 8 { '8' } else { '9' }
}

/// The decimal numeral of `n`, without leading zeros.
pub open spec fn decimal(n: nat) -> Seq<char>
    decreases n,
{
    if n < 10 {
        seq![digit(n)]
    } else {
        decimal(n / 10).push(digit(n % 10))
    }
}

/// The one-character text of a digit.
fn digit_text(d: u8) -> (r: &'static str)
    requires
        d < 10,
    ensures
        r@ == seq![digit(d as nat)],
{
    match d {
        0 => { proof { reveal_strlit("0"); } "0" },
        1 => { proof { reveal_strlit("1"); } "1" },
        2 => { proof { reveal_strlit("2"); } "2" },
        3 => { proof { reveal_strlit("3"); } "3" },
        4 => { proof { reveal_strlit("4"); } "4" },
        5 => { proof { reveal_strlit("5"); } "5" },
        6 => { proof { reveal_strlit("6"); } "6" },
        7 => { proof { reveal_strlit("7"); } "7" },
        8 => { proof { reveal_strlit("8"); } "8" },
        _ => { proof { reveal_strlit("9"); } "9" },
    }
}

/// Appends the decimal numeral of `n` to `out`.
pub fn push_decimal(out: &mut String, n: u8)
    ensures
        final(out)@ == old(out)@ + decimal(n as nat),
{
    if n >= 100 {
        out.append(digit_text(n / 100));
        out.append(digit_text((n / 10) % 10));
        out.append(digit_text(n % 10));
        assert(decimal(n as nat) =~= seq![digit((n / 100) as nat), digit(((n / 10) % 10) as nat), digit((n % 10) as nat)]) by {
            assert(decimal((n / 10) as nat) == decimal(((n / 10) / 10) as nat).push(digit(((n / 10) % 10) as nat)));
            assert((n / 10) / 10 == n / 100);
        }
    } else if n >= 10 {
        out.append(digit_text(n / 10));
        out.append(digit_text(n % 10));
        assert(decimal(n as nat) =~= seq![digit((n / 10) as nat), digit((n % 10) as nat)]) by {
            assert(decimal((n / 10) as nat) == seq![digit((n / 10) as nat)]);
        }
    } else {
        out.append(digit_text(n));
    }
}

/// The name of a location: its point's number, `bar` or `home`.
pub open spec fn location_text(l: Location) -> Seq<char> {
    match l {
        Location::Board(Point(n)) => decimal(n as nat),
        Location::Bar => seq!['b', 'a', 'r'],
        Location::Home => seq!['h', 'o', 'm', 'e'],
    }
}

/// A single move written as its location, a comma and the number of points.
pub open spec fn move_text(m: SingleMove) -> Seq<char> {
    location_text(m.0) + seq![','] + decimal(m.1 as nat)
}

/// The single moves of a play written one after another, separated by spaces.
pub open spec fn sequence_text(ms: Seq<SingleMove>) -> Seq<char>
    decreases ms.len(),
{
    if ms.len() == 0 {
        seq![]
    } else if ms.len() == 1 {
        move_text(ms[0])
    } else {
        sequence_text(ms.drop_last()) + seq![' '] + move_text(ms.last())
    }
}

/// Appends the name of a location to `out`.
fn push_location(out: &mut String, l: Location)
    ensures
        final(out)@ == old(out)@ + location_text(l),
{
    match l {
        Location::Board(Point(n)) => push_decimal(out, n),
        Location::Bar => {
            proof { reveal_strlit("bar"); }
            out.append("bar");
        },
        Location::Home => {
            proof { reveal_strlit("home"); }
            out.append("home");
        },
    }
}

impl StackHeight {
    /// The height in decimal.
    pub fn to_string(&self) -> (r: String)
        ensures
            r@ == decimal(self.0 as nat),
    {
        let mut out = String::new();
        push_decimal(&mut out, self.0);
        assert(out@ =~= decimal(self.0 as nat));
        out
    }
}

impl Location {
    /// The name of the location: the point's number, `bar` or `home`.
    pub fn to_string(&self) -> (r: String)
        ensures
            r@ == location_text(*self),
    {
        let mut out = String::new();
        push_location(&mut out, *self);
        assert(out@ =~= location_text(*self));
        out
    }
}

/// A single move as the player writes it: location, comma, number of points.
pub fn format_move(m: &SingleMove) -> (r: String)
    ensures
        r@ == move_text(*m),
{
    let (l, n) = *m;
    let mut out = String::new();
    push_location(&mut out, l);
    proof { reveal_strlit(","); }
    out.append(",");
    push_decimal(&mut out, n);
    assert(out@ =~= move_text(*m));
    out
}

/// A play written as its single moves separated by spaces.
pub fn format_sequence(ms: &[SingleMove]) -> (r: String)
    ensures
        r@ == sequence_text(ms@),
{
    let mut out = String::new();
    let mut i: usize = 0;
    assert(out@ =~= sequence_text(ms@.subrange(0, 0)));
    while i < ms.len()
        invariant
            i <= ms@.len(),
            out@ == sequence_text(ms@.subrange(0, i as int)),
        decreases ms@.len() - i,
    {
        let ghost before = out@;
        if i > 0 {
            proof { reveal_strlit(" "); }
            out.append(" ");
        }
        let t = format_move(&ms[i]);
        out.append(t.as_str());
        proof {
            let sub = ms@.subrange(0, i + 1);
            assert(sub.drop_last() =~= ms@.subrange(0, i as int));
            assert(sub.last() == ms@[i as int]);
            if i == 0 {
                assert(sub.len() == 1);
                assert(out@ =~= sequence_text(sub));
            } else {
                assert(out@ =~= sequence_text(sub));
            }
        }
        i += 1;
    }
    assert(ms@.subrange(0, ms@.len() as int) =~= ms@);
    out
}


/// Why a number could not be read, as `str::parse::<u8>` reports it.
#[derive(PartialEq, Eq, Structural, Clone, Copy, Debug)]
pub enum NumberError {
    Empty,
    InvalidDigit,
    PosOverflow,
}

/// Why what the player wrote could not be read.
#[derive(PartialEq, Eq, Structural, Clone, Copy, Debug)]
pub enum NotationError {
    /// A number could not be read.
    Number(NumberError),
    /// A single move names no location.
    NoLocation,
    /// A single move gives no number of points.
    NoAmount,
    /// The line is empty.
    NothingWritten,
    /// The line holds nothing but its last character.
    NoDigit,
    /// The line holds one die only.
    NoSecondNumber,
    /// The second die is missing.
    NoSecondDigit,
    /// The dice are not two numbers from 1 to 6, the highest first.
    InvalidRoll,
    /// The play is not among the legal moves.
    IllegalMove,
}

/// The text shown for an error.
pub open spec fn message_text(e: NotationError) -> Seq<char> {
    match e {
        NotationError::Number(NumberError::Empty) => "cannot parse integer from empty string"@,
        NotationError::Number(NumberError::InvalidDigit) => "invalid digit found in string"@,
        NotationError::Number(NumberError::PosOverflow) => "number too large to fit in target type"@,
        NotationError::NoLocation => "Couldn't get location"@,
        NotationError::NoAmount => "Couldn't get amount"@,
        NotationError::NothingWritten => "Write something!"@,
        NotationError::NoDigit => "C'mon, write at least one digit!"@,
        NotationError::NoSecondNumber => "You need to write both numbers"@,
        NotationError::NoSecondDigit => "Might as well write the other digit"@,
        NotationError::InvalidRoll => "Not a valid dice roll"@,
        NotationError::IllegalMove => "That's not a legal move. Please try again."@,
    }
}

impl NotationError {
    /// The text shown for the error.
    pub fn message(&self) -> (r: String)
        ensures
            r@ == message_text(*self),
    {
        match self {
            NotationError::Number(NumberError::Empty) => String::from_str("cannot parse integer from empty string"),
            NotationError::Number(NumberError::InvalidDigit) => String::from_str("invalid digit found in string"),
            NotationError::Number(NumberError::PosOverflow) => String::from_str("number too large to fit in target type"),
            NotationError::NoLocation => String::from_str("Couldn't get location"),
            NotationError::NoAmount => String::from_str("Couldn't get amount"),
            NotationError::NothingWritten => String::from_str("Write something!"),
            NotationError::NoDigit => String::from_str("C'mon, write at least one digit!"),
            NotationError::NoSecondNumber => String::from_str("You need to write both numbers"),
            NotationError::NoSecondDigit => String::from_str("Might as well write the other digit"),
            NotationError::InvalidRoll => String::from_str("Not a valid dice roll"),
            NotationError::IllegalMove => String::from_str("That's not a legal move. Please try again."),
        }
    }
}

/// The value of a decimal digit character.
pub open spec fn digit_value(c: char) -> Option<nat> {
    if c == '0' { Some(0) } else if c == '1' { Some(1) } else if c == '2' { Some(2) }
    else if c == '3' { Some(3) } else if c == '4' { Some(4) } else if c == '5' { Some(5) }
    else if c == '6' { Some(6) } else if c == '7' { Some(7) } else if c == '8' { Some(8) }
    else if c == '9' { Some(9) } else { None }
}

/// Reads the digits `ds` after the value `acc` read so far: the first character that
/// is no digit is an invalid digit, a value beyond 255 an overflow.
pub open spec fn digits_value(ds: Seq<char>, acc: nat) -> Result<u8, NumberError>
    decreases ds.len(),
{
    if ds.len() == 0 {
        Ok(acc as u8)
    } else {
        match digit_value(ds[0]) {
            None => Err(NumberError::InvalidDigit),
            Some(d) => if acc * 10 + d > 255 {
                Err(NumberError::PosOverflow)
            } else {
                digits_value(ds.drop_first(), acc * 10 + d)
            },
        }
    }
}

/// A byte written in decimal, as `str::parse::<u8>` reads it: an optional `+`, then
/// decimal digits.
pub open spec fn number_value(cs: Seq<char>) -> Result<u8, NumberError> {
    if cs.len() == 0 {
        Err(NumberError::Empty)
    } else if cs[0] == '+' {
        if cs.len() == 1 { Err(NumberError::InvalidDigit) } else { digits_value(cs.drop_first(), 0) }
    } else {
        digits_value(cs, 0)
    }
}

/// The value of a digit character.
fn digit_of(c: char) -> (r: Option<u8>)
    ensures
        r matches Some(d) ==> digit_value(c) == Some(d as nat),
        r is None ==> digit_value(c) is None,
{
    if c == '0' { Some(0) } else if c == '1' { Some(1) } else if c == '2' { Some(2) }
    else if c == '3' { Some(3) } else if c == '4' { Some(4) } else if c == '5' { Some(5) }
    else if c == '6' { Some(6) } else if c == '7' { Some(7) } else if c == '8' { Some(8) }
    else if c == '9' { Some(9) } else { None }
}

/// Reads a byte written in decimal (an optional `+`, then digits).
pub fn parse_number(cs: &Vec<char>) -> (r: Result<u8, NumberError>)
    ensures
        r == number_value(cs@),
{
    if cs.len() == 0 {
        return Err(NumberError::Empty);
    }
    let mut i: usize = 0;
    if cs[0] == '+' {
        if cs.len() == 1 {
            return Err(NumberError::InvalidDigit);
        }
        i = 1;
    }
    let ghost ds = if cs@[0] == '+' { cs@.drop_first() } else { cs@ };
    assert(cs@.skip(i as int) =~= ds);
    let mut acc: u32 = 0;
    while i < cs.len()
        invariant
            i <= cs@.len(),
            acc <= 255,
            number_value(cs@) == digits_value(cs@.skip(i as int), acc as nat),
            cs@.len() > 0,
            ds == (if cs@[0] == '+' { cs@.drop_first() } else { cs@ }),
        decreases cs@.len() - i,
    {
        assert(cs@.skip(i as int)[0] == cs@[i as int]);
        assert(cs@.skip(i as int).drop_first() =~= cs@.skip(i + 1));
        match digit_of(cs[i]) {
            None => return Err(NumberError::InvalidDigit),
            Some(d) => {
                if acc * 10 + d as u32 > 255 {
                    return Err(NumberError::PosOverflow);
                }
                acc = acc * 10 + d as u32;
            },
        }
        i += 1;
    }
    assert(cs@.skip(i as int).len() == 0);
    Ok(acc as u8)
}

/// The characters that `char::is_whitespace` accepts: Unicode's White_Space.
pub open spec fn is_space(c: char) -> bool {
    c == '\u{9}' || c == '\u{a}' || c == '\u{b}' || c == '\u{c}' || c == '\u{d}' || c == ' '
        || c == '\u{85}' || c == '\u{a0}' || c == '\u{1680}' || c == '\u{2000}' || c == '\u{2001}'
        || c == '\u{2002}' || c == '\u{2003}' || c == '\u{2004}' || c == '\u{2005}' || c == '\u{2006}'
        || c == '\u{2007}' || c == '\u{2008}' || c == '\u{2009}' || c == '\u{200a}' || c == '\u{2028}'
        || c == '\u{2029}' || c == '\u{202f}' || c == '\u{205f}' || c == '\u{3000}'
}

/// A separator: white space, and with `commas` also a comma.
pub open spec fn is_separator(c: char, commas: bool) -> bool {
    is_space(c) || (commas && c == ',')
}

/// Whether a character is white space.
fn space(c: char) -> (r: bool)
    ensures
        r == is_space(c),
{
    c == '\u{9}' || c == '\u{a}' || c == '\u{b}' || c == '\u{c}' || c == '\u{d}' || c == ' '
        || c == '\u{85}' || c == '\u{a0}' || c == '\u{1680}' || c == '\u{2000}' || c == '\u{2001}'
        || c == '\u{2002}' || c == '\u{2003}' || c == '\u{2004}' || c == '\u{2005}' || c == '\u{2006}'
        || c == '\u{2007}' || c == '\u{2008}' || c == '\u{2009}' || c == '\u{200a}' || c == '\u{2028}'
        || c == '\u{2029}' || c == '\u{202f}' || c == '\u{205f}' || c == '\u{3000}'
}

/// Splitting `cs` so far: the finished pieces and the piece being read.
pub open spec fn split_state(cs: Seq<char>, commas: bool) -> (Seq<Seq<char>>, Seq<char>)
    decreases cs.len(),
{
    if cs.len() == 0 {
        (seq![], seq![])
    } else {
        let (done, cur) = split_state(cs.drop_last(), commas);
        let c = cs.last();
        if is_separator(c, commas) {
            if cur.len() > 0 { (done.push(cur), seq![]) } else { (done, seq![]) }
        } else {
            (done, cur.push(c))
        }
    }
}

/// The pieces of `cs` between separators (the maximal runs of other characters), in
/// order, as `split_whitespace` gives them.
pub open spec fn split_by(cs: Seq<char>, commas: bool) -> Seq<Seq<char>> {
    let (done, cur) = split_state(cs, commas);
    if cur.len() > 0 { done.push(cur) } else { done }
}

/// Splits `cs` at separators (white space, and with `commas` also commas).
pub fn split(cs: &Vec<char>, commas: bool) -> (r: Vec<Vec<char>>)
    ensures
        r@.map_values(|v: Vec<char>| v@) == split_by(cs@, commas),
{
    let mut done: Vec<Vec<char>> = Vec::new();
    let mut cur: Vec<char> = Vec::new();
    let mut i: usize = 0;
    while i < cs.len()
        invariant
            i <= cs@.len(),
            (done@.map_values(|v: Vec<char>| v@), cur@) == split_state(cs@.subrange(0, i as int), commas),
        decreases cs@.len() - i,
    {
        let c = cs[i];
        let ghost d0 = done@.map_values(|v: Vec<char>| v@);
        let ghost cur0 = cur@;
        assert(cs@.subrange(0, i + 1).drop_last() =~= cs@.subrange(0, i as int));
        assert(cs@.subrange(0, i + 1).last() == c);
        if space(c) || (commas && c == ',') {
            if cur.len() > 0 {
                let piece = cur;
                done.push(piece);
                cur = Vec::new();
                assert(done@.map_values(|v: Vec<char>| v@) =~= d0.push(cur0));
            }
        } else {
            cur.push(c);
        }
        i += 1;
    }
    assert(cs@.subrange(0, cs@.len() as int) =~= cs@);
    let ghost d0 = done@.map_values(|v: Vec<char>| v@);
    let ghost cur0 = cur@;
    if cur.len() > 0 {
        done.push(cur);
        assert(done@.map_values(|v: Vec<char>| v@) =~= d0.push(cur0));
    }
    done
}

/// The characters of a text.
pub fn chars_of(s: &str) -> (r: Vec<char>)
    ensures
        r@ == s@,
{
    let n = s.unicode_len();
    let mut r: Vec<char> = Vec::new();
    let mut i: usize = 0;
    while i < n
        invariant
            n == s@.len(),
            i <= n,
            r@ == s@.subrange(0, i as int),
        decreases n - i,
    {
        r.push(s.get_char(i));
        i += 1;
    }
    assert(r@ =~= s@);
    r
}


/// A location as the player writes it: `home`, `bar`, or a point's number.
pub open spec fn location_value(cs: Seq<char>) -> Result<Location, NotationError> {
    if cs == seq!['h', 'o', 'm', 'e'] {
        Ok(Location::Home)
    } else if cs == seq!['b', 'a', 'r'] {
        Ok(Location::Bar)
    } else {
        match number_value(cs) {
            Ok(n) => Ok(Location::Board(Point(n))),
            Err(e) => Err(NotationError::Number(e)),
        }
    }
}

/// Whether the characters are those of `word`.
fn is_word(cs: &Vec<char>, word: &Vec<char>) -> (r: bool)
    ensures
        r == (cs@ == word@),
{
    if cs.len() != word.len() {
        return false;
    }
    let mut i: usize = 0;
    while i < cs.len()
        invariant
            cs@.len() == word@.len(),
            i <= cs@.len(),
            cs@.subrange(0, i as int) == word@.subrange(0, i as int),
        decreases cs@.len() - i,
    {
        if cs[i] != word[i] {
            return false;
        }
        assert(cs@.subrange(0, i + 1) =~= cs@.subrange(0, i as int).push(cs@[i as int]));
        assert(word@.subrange(0, i + 1) =~= word@.subrange(0, i as int).push(word@[i as int]));
        i += 1;
    }
    assert(cs@ =~= cs@.subrange(0, i as int));
    assert(word@ =~= word@.subrange(0, i as int));
    true
}

/// Reads a location from its characters.
fn location_of(cs: &Vec<char>) -> (r: Result<Location, NotationError>)
    ensures
        r == location_value(cs@),
{
    let home: Vec<char> = vec!['h', 'o', 'm', 'e'];
    let bar: Vec<char> = vec!['b', 'a', 'r'];
    assert(home@ =~= seq!['h', 'o', 'm', 'e']);
    assert(bar@ =~= seq!['b', 'a', 'r']);
    if is_word(cs, &home) {
        Ok(Location::Home)
    } else if is_word(cs, &bar) {
        Ok(Location::Bar)
    } else {
        match parse_number(cs) {
            Ok(n) => Ok(Location::Board(Point(n))),
            Err(e) => Err(NotationError::Number(e)),
        }
    }
}

/// Reads a location: `home`, `bar`, or a point's number.
pub fn parse_location(s: &str) -> (r: Result<Location, NotationError>)
    ensures
        r == location_value(s@),
{
    let cs = chars_of(s);
    location_of(&cs)
}

/// A single move written as location and number of points, separated by commas: the
/// first two pieces between commas count, further pieces are ignored.
pub open spec fn move_value(tok: Seq<char>) -> Result<SingleMove, NotationError> {
    let pieces = split_by(tok, true);
    if pieces.len() == 0 {
        Err(NotationError::NoLocation)
    } else if pieces.len() == 1 {
        Err(NotationError::NoAmount)
    } else {
        match location_value(pieces[0]) {
            Err(e) => Err(e),
            Ok(l) => match number_value(pieces[1]) {
                Err(e) => Err(NotationError::Number(e)),
                Ok(n) => Ok((l, n)),
            },
        }
    }
}

/// The single moves written in `ts`, one per piece, or the error of the first piece that
/// cannot be read.
pub open spec fn moves_value(ts: Seq<Seq<char>>) -> Result<Seq<SingleMove>, NotationError>
    decreases ts.len(),
{
    if ts.len() == 0 {
        Ok(seq![])
    } else {
        match move_value(ts[0]) {
            Err(e) => Err(e),
            Ok(m) => match moves_value(ts.drop_first()) {
                Err(e) => Err(e),
                Ok(rest) => Ok(seq![m] + rest),
            },
        }
    }
}

/// The play written on a line: single moves separated by white space.
pub open spec fn play_value(cs: Seq<char>) -> Result<Seq<SingleMove>, NotationError> {
    moves_value(split_by(cs, false))
}

/// Reads a single move written as location, comma, number of points.
fn move_of(tok: &Vec<char>) -> (r: Result<SingleMove, NotationError>)
    ensures
        r == move_value(tok@),
{
    let pieces = split(tok, true);
    let ghost ps = pieces@.map_values(|v: Vec<char>| v@);
    if pieces.len() == 0 {
        return Err(NotationError::NoLocation);
    }
    if pieces.len() == 1 {
        return Err(NotationError::NoAmount);
    }
    assert(ps[0] == pieces@[0]@ && ps[1] == pieces@[1]@);
    let l = match location_of(&pieces[0]) {
        Ok(l) => l,
        Err(e) => return Err(e),
    };
    match parse_number(&pieces[1]) {
        Ok(n) => Ok((l, n)),
        Err(e) => Err(NotationError::Number(e)),
    }
}

/// Reads a play: single moves separated by white space, each written as location,
/// comma, number of points (`13,5 bar,3`).
pub fn parse_moves(buf: &str) -> (r: Result<Vec<SingleMove>, NotationError>)
    ensures
        r matches Ok(v) ==> play_value(buf@) == Ok::<Seq<SingleMove>, NotationError>(v@),
        r matches Err(e) ==> play_value(buf@) == Err::<Seq<SingleMove>, NotationError>(e),
{
    let cs = chars_of(buf);
    let tokens = split(&cs, false);
    let ghost ts = tokens@.map_values(|v: Vec<char>| v@);
    let mut out: Vec<SingleMove> = Vec::new();
    let mut i: usize = 0;
    proof {
        assert(ts.skip(0) =~= ts);
        match moves_value(ts) {
            Ok(rest) => {
                assert(out@ + rest =~= rest);
            },
            Err(_) => {},
        }
    }
    while i < tokens.len()
        invariant
            ts == tokens@.map_values(|v: Vec<char>| v@),
            ts == split_by(cs@, false),
            cs@ == buf@,
            i <= tokens@.len(),
            moves_value(ts) == (match moves_value(ts.skip(i as int)) {
                Err(e) => Err(e),
                Ok(rest) => Ok(out@ + rest),
            }),
        decreases tokens@.len() - i,
    {
        let ghost tail = ts.skip(i as int);
        assert(tail[0] == tokens@[i as int]@);
        assert(tail.drop_first() =~= ts.skip(i + 1));
        match move_of(&tokens[i]) {
            Err(e) => {
                return Err(e);
            },
            Ok(m) => {
                let ghost before = out@;
                out.push(m);
                proof {
                    match moves_value(ts.skip(i + 1)) {
                        Err(e) => {},
                        Ok(rest) => {
                            assert(before + (seq![m] + rest) =~= out@ + rest);
                        },
                    }
                }
            },
        }
        i += 1;
    }
    proof {
        assert(ts.skip(i as int).len() == 0);
        assert(out@ + Seq::<SingleMove>::empty() =~= out@);
    }
    Ok(out)
}

/// The throw written on a line, read from its end: the line's last character (its line
/// break), then the highest die, one character, then the lowest die. The dice must be
/// from 1 to 6, the highest first.
pub open spec fn roll_value(cs: Seq<char>) -> Result<Roll, NotationError> {
    let n = cs.len();
    if n == 0 {
        Err(NotationError::NothingWritten)
    } else if n == 1 {
        Err(NotationError::NoDigit)
    } else {
        match number_value(seq![cs[n - 2]]) {
            Err(e) => Err(NotationError::Number(e)),
            Ok(x) => if n == 2 {
                Err(NotationError::NoSecondNumber)
            } else if n == 3 {
                Err(NotationError::NoSecondDigit)
            } else {
                match number_value(seq![cs[n - 4]]) {
                    Err(e) => Err(NotationError::Number(e)),
                    Ok(y) => if !(x >= y && y > 0 && x > 0 && x < 7) {
                        Err(NotationError::InvalidRoll)
                    } else {
                        Ok((x, y))
                    },
                }
            },
        }
    }
}

/// Reads a throw of the dice from a line as typed (with its line break): the lowest
/// die, a space, the highest die.
pub fn parse_roll(line: &str) -> (r: Result<Roll, NotationError>)
    ensures
        r == roll_value(line@),
{
    let cs = chars_of(line);
    let n = cs.len();
    if n == 0 {
        return Err(NotationError::NothingWritten);
    }
    if n == 1 {
        return Err(NotationError::NoDigit);
    }
    let first: Vec<char> = vec![cs[n - 2]];
    assert(first@ =~= seq![cs@[n - 2]]);
    let x = match parse_number(&first) {
        Ok(x) => x,
        Err(e) => return Err(NotationError::Number(e)),
    };
    if n == 2 {
        return Err(NotationError::NoSecondNumber);
    }
    if n == 3 {
        return Err(NotationError::NoSecondDigit);
    }
    let second: Vec<char> = vec![cs[n - 4]];
    assert(second@ =~= seq![cs@[n - 4]]);
    let y = match parse_number(&second) {
        Ok(y) => y,
        Err(e) => return Err(NotationError::Number(e)),
    };
    if !(x >= y && y > 0 && x > 0 && x < 7) {
        return Err(NotationError::InvalidRoll);
    }
    Ok((x, y))
}

/// Reads the play the player to move wrote and accepts it if it is one of the legal
/// moves of the position (moves listed in increasing order).
pub fn check_move(s: &State, line: &str) -> (r: Result<Move, NotationError>)
    requires
        s@.wf(),
        !s@.roll_turn ==> dice_ok(s@),
    ensures
        match play_value(line@) {
            Err(e) => r == Err::<Move, NotationError>(e),
            Ok(p) => if !s@.roll_turn && sorts_longest(s@, p) {
                r matches Ok(m) && m is Ok && play_of(m) == p
            } else {
                r == Err::<Move, NotationError>(NotationError::IllegalMove)
            },
        },
{
    let play = match parse_moves(line) {
        Ok(v) => v,
        Err(e) => return Err(e),
    };
    let legal = Backgammon::legal_moves(s);
    let mut found = false;
    let mut i: usize = 0;
    while i < legal.len() && !found
        invariant
            i <= legal@.len(),
            found ==> i > 0 && play_of(legal@[i - 1]) == play@ && legal@[i - 1] is Ok,
            !found ==> forall|t: int| 0 <= t < i ==> play_of(#[trigger] legal@[t]) != play@ || legal@[t] is Err,
        decreases legal@.len() - i,
    {
        match &legal[i] {
            Ok(v) => {
                let (_, equal) = compare_plays(v, &play);
                if equal {
                    found = true;
                }
            },
            Err(_) => {},
        }
        i += 1;
    }
    if found {
        proof {
            if !s@.roll_turn {
                assert(sorts_longest(s@, play_of(legal@[i - 1])));
            } else {
                assert(legal@[i - 1] == Err::<Vec<SingleMove>, Roll>(crate::game::backgammon::spec_rolls()[i - 1]));
            }
        }
        return Ok(Ok(play));
    }
    proof {
        if !s@.roll_turn && sorts_longest(s@, play@) {
            let c = crate::game::backgammon::candidate_plays(s@);
            let k = choose|k: int| 0 <= k < c.len() && crate::game::backgammon::is_longest(s@, c[k])
                && crate::game::backgammon::sorted_version(play@, c[k]);
            let ps = legal@.map_values(|m: Move| play_of(m));
            assert(crate::game::backgammon::listed(ps, c[k]));
            let t = choose|t: int| 0 <= t < ps.len() && crate::game::backgammon::sorted_version(ps[t], c[k]);
            assert(ps[t] == play_of(legal@[t]));
            lemma_sorted_version_unique(ps[t], play@);
            assert(legal@[t] is Ok);
        }
    }
    Err(NotationError::IllegalMove)
}


/// The line describing location `l` in a position: its name, then the white and black
/// stack heights, as in `13: (0, 5)`.
pub open spec fn location_line(l: Location, white: u8, black: u8) -> Seq<char> {
    location_text(l) + seq![':', ' ', '('] + decimal(white as nat) + seq![',', ' '] + decimal(black as nat) + seq![')']
}

/// The locations a position is shown by: the points, then the bar and home.
pub open spec fn shown_locations() -> Seq<Location> {
    spec_board().push(Location::Bar).push(Location::Home)
}

/// The description of a position: one line per location of `shown_locations`.
pub fn state_lines(s: &State) -> (lines: Vec<String>)
    requires
        s@.wf(),
    ensures
        lines@.len() == shown_locations().len(),
        forall|i: int| 0 <= i < lines@.len() ==> (#[trigger] lines@[i])@ == location_line(
            shown_locations()[i], s@.height(shown_locations()[i], true), s@.height(shown_locations()[i], false)),
{
    let mut b = board();
    b.push(Location::Bar);
    b.push(Location::Home);
    let ghost locs = b@;
    assert(locs =~= shown_locations());
    let mut lines: Vec<String> = Vec::new();
    let mut i: usize = 0;
    while i < b.len()
        invariant
            b@ == locs,
            locs == shown_locations(),
            s@.wf(),
            i <= b@.len(),
            lines@.len() == i,
            forall|t: int| 0 <= t < i ==> (#[trigger] lines@[t])@ == location_line(
                locs[t], s@.height(locs[t], true), s@.height(locs[t], false)),
        decreases b@.len() - i,
    {
        let l = b[i];
        proof {
            if i < 24 {
                assert(locs[i as int] == spec_board()[i as int]);
            }
        }
        let count = s.count_at(l);
        let mut line = l.to_string();
        proof { reveal_strlit(": ("); }
        line.append(": (");
        push_decimal(&mut line, count.0.0);
        proof { reveal_strlit(", "); }
        line.append(", ");
        push_decimal(&mut line, count.1.0);
        proof { reveal_strlit(")"); }
        line.append(")");
        assert(line@ =~= location_line(l, s@.height(l, true), s@.height(l, false)));
        lines.push(line);
        i += 1;
    }
    lines
}

/// A decimal digit character: neither white space, a comma, a sign nor a letter.
pub open spec fn is_digit_char(c: char) -> bool {
    digit_value(c) is Some
}

proof fn lemma_digit(d: nat)
    requires
        d < 10,
    ensures
        digit_value(digit(d)) == Some(d),
        !is_separator(digit(d), true),
{
}

proof fn lemma_decimal_digits(n: nat)
    ensures
        decimal(n).len() > 0,
        forall|i: int| 0 <= i < decimal(n).len() ==> is_digit_char(#[trigger] decimal(n)[i]),
        forall|i: int| 0 <= i < decimal(n).len() ==> !is_separator(#[trigger] decimal(n)[i], true),
    decreases n,
{
    if n < 10 {
        lemma_digit(n);
    } else {
        lemma_decimal_digits(n / 10);
        lemma_digit(n % 10);
    }
}

/// Reading one more character after `ds`.
proof fn lemma_digits_push(ds: Seq<char>, acc: nat, c: char)
    requires
        acc <= 255,
    ensures
        digits_value(ds.push(c), acc) == match digits_value(ds, acc) {
            Err(e) => Err(e),
            Ok(v) => match digit_value(c) {
                None => Err(NumberError::InvalidDigit),
                Some(d) => if v * 10 + d > 255 { Err(NumberError::PosOverflow) } else { Ok((v * 10 + d) as u8) },
            },
        },
    decreases ds.len(),
{
    if ds.len() == 0 {
        assert(ds.push(c).drop_first() =~= Seq::<char>::empty());
        assert(ds.push(c)[0] == c);
        assert(digits_value(ds, acc) == Ok::<u8, NumberError>(acc as u8));
        match digit_value(c) {
            None => {},
            Some(d) => {
                if acc * 10 + d <= 255 {
                    assert(digits_value(Seq::<char>::empty(), acc * 10 + d) == Ok::<u8, NumberError>((acc * 10 + d) as u8));
                }
            },
        }
    } else {
        assert(ds.push(c).drop_first() =~= ds.drop_first().push(c));
        assert(ds.push(c)[0] == ds[0]);
        match digit_value(ds[0]) {
            None => {},
            Some(d) => {
                if acc * 10 + d <= 255 {
                    lemma_digits_push(ds.drop_first(), acc * 10 + d, c);
                }
            },
        }
    }
}

/// A byte written in decimal reads back as itself.
pub proof fn lemma_decimal_reads_back(n: nat)
    requires
        n <= 255,
    ensures
        digits_value(decimal(n), 0) == Ok::<u8, NumberError>(n as u8),
        number_value(decimal(n)) == Ok::<u8, NumberError>(n as u8),
    decreases n,
{
    lemma_decimal_digits(n);
    if n < 10 {
        lemma_digit(n);
        assert(decimal(n) =~= Seq::<char>::empty().push(digit(n)));
        lemma_digits_push(Seq::<char>::empty(), 0, digit(n));
    } else {
        lemma_decimal_reads_back(n / 10);
        lemma_digit(n % 10);
        lemma_digits_push(decimal(n / 10), 0, digit(n % 10));
        assert((n / 10) * 10 + n % 10 == n) by (nonlinear_arith);
    }
    assert(is_digit_char(decimal(n)[0]));
}

/// Reading characters with no separator among them extends the piece being read.
proof fn lemma_split_word(cs: Seq<char>, w: Seq<char>, commas: bool)
    requires
        forall|i: int| 0 <= i < w.len() ==> !is_separator(#[trigger] w[i], commas),
    ensures
        split_state(cs + w, commas) == (split_state(cs, commas).0, split_state(cs, commas).1 + w),
    decreases w.len(),
{
    if w.len() == 0 {
        assert(cs + w =~= cs);
        assert(split_state(cs, commas).1 + w =~= split_state(cs, commas).1);
    } else {
        let w0 = w.drop_last();
        lemma_split_word(cs, w0, commas);
        assert((cs + w).drop_last() =~= cs + w0);
        assert((cs + w).last() == w.last());
        assert(split_state(cs, commas).1 + w =~= (split_state(cs, commas).1 + w0).push(w.last()));
    }
}

/// A separator after `cs` ends its last piece.
proof fn lemma_split_separator(cs: Seq<char>, c: char, commas: bool)
    requires
        is_separator(c, commas),
    ensures
        split_state(cs.push(c), commas) == (split_by(cs, commas), Seq::<char>::empty()),
{
    assert(cs.push(c).drop_last() =~= cs);
}

/// The text of a single move splits at its comma into the location and the amount.
proof fn lemma_move_text_reads_back(m: SingleMove)
    ensures
        move_value(move_text(m)) == Ok::<SingleMove, NotationError>(m),
        move_text(m).len() > 0,
        forall|i: int| 0 <= i < move_text(m).len() ==> !is_space(#[trigger] move_text(m)[i]),
{
    let l = location_text(m.0);
    let d = decimal(m.1 as nat);
    lemma_decimal_digits(m.1 as nat);
    lemma_decimal_reads_back(m.1 as nat);
    match m.0 {
        Location::Board(Point(n)) => {
            lemma_decimal_digits(n as nat);
            lemma_decimal_reads_back(n as nat);
            assert(is_digit_char(l[0]));
            assert(l != seq!['h', 'o', 'm', 'e']);
            assert(l != seq!['b', 'a', 'r']);
        },
        _ => {},
    }
    assert(forall|i: int| 0 <= i < l.len() ==> !is_separator(#[trigger] l[i], true));
    lemma_split_word(Seq::<char>::empty(), l, true);
    assert(Seq::<char>::empty() + l =~= l);
    assert(split_state(Seq::<char>::empty(), true) == (Seq::<Seq<char>>::empty(), Seq::<char>::empty()));
    assert(Seq::<char>::empty() + l =~= l);
    lemma_split_separator(l, ',', true);
    lemma_split_word(l.push(','), d, true);
    assert(move_text(m) =~= l.push(',') + d);
    assert(Seq::<char>::empty() + d =~= d);
    assert(split_by(l, true) =~= seq![l]);
    assert(split_by(move_text(m), true) =~= seq![l, d]);
    assert(location_value(l) == Ok::<Location, NotationError>(m.0));
    let t = move_text(m);
    assert forall|i: int| 0 <= i < t.len() implies !is_space(#[trigger] t[i]) by {
        if i < l.len() {
            assert(t[i] == l[i]);
        } else if i > l.len() {
            assert(t[i] == d[i - l.len() - 1]);
        } else {
            assert(t[i] == ',');
        }
    }
}

/// The text of a sequence splits at its spaces into the texts of its moves.
proof fn lemma_sequence_text_splits(ms: Seq<SingleMove>)
    ensures
        split_by(sequence_text(ms), false) == ms.map_values(|m: SingleMove| move_text(m)),
    decreases ms.len(),
{
    if ms.len() == 0 {
        assert(split_by(sequence_text(ms), false) =~= ms.map_values(|m: SingleMove| move_text(m)));
    } else {
        let w = move_text(ms.last());
        lemma_move_text_reads_back(ms.last());
        assert(forall|i: int| 0 <= i < w.len() ==> !is_separator(#[trigger] w[i], false));
        if ms.len() == 1 {
            lemma_split_word(Seq::<char>::empty(), w, false);
            assert(Seq::<char>::empty() + w =~= w);
            assert(Seq::<char>::empty() + w =~= w);
            assert(ms.last() == ms[0]);
            assert(split_by(sequence_text(ms), false) =~= ms.map_values(|m: SingleMove| move_text(m)));
        } else {
            let t = sequence_text(ms.drop_last());
            lemma_sequence_text_splits(ms.drop_last());
            lemma_split_separator(t, ' ', false);
            lemma_split_word(t.push(' '), w, false);
            assert(t + seq![' '] =~= t.push(' '));
            assert(Seq::<char>::empty() + w =~= w);
            assert(ms.map_values(|m: SingleMove| move_text(m)) =~= ms.drop_last().map_values(|m: SingleMove| move_text(m)).push(w));
        }
    }
}

proof fn lemma_move_texts_read_back(ms: Seq<SingleMove>)
    ensures
        moves_value(ms.map_values(|m: SingleMove| move_text(m))) == Ok::<Seq<SingleMove>, NotationError>(ms),
    decreases ms.len(),
{
    let ts = ms.map_values(|m: SingleMove| move_text(m));
    if ms.len() > 0 {
        assert(ts[0] == move_text(ms[0]));
        lemma_move_text_reads_back(ms[0]);
        lemma_move_texts_read_back(ms.drop_first());
        assert(ts.drop_first() =~= ms.drop_first().map_values(|m: SingleMove| move_text(m)));
        assert(seq![ms[0]] + ms.drop_first() =~= ms);
        assert(moves_value(ts) == Ok::<Seq<SingleMove>, NotationError>(seq![ms[0]] + ms.drop_first()));
    } else {
        assert(ts.len() == 0);
        assert(ms =~= Seq::<SingleMove>::empty());
    }
}

/// What `format_sequence` writes, `parse_moves` reads back: the text of any sequence of
/// single moves (any locations, any amounts) reads as that sequence.
pub proof fn lemma_sequence_reads_back(ms: Seq<SingleMove>)
    ensures
        play_value(sequence_text(ms)) == Ok::<Seq<SingleMove>, NotationError>(ms),
{
    lemma_sequence_text_splits(ms);
    lemma_move_texts_read_back(ms);
}

} // verus!
