//! The command codec: encoding and decoding of game commands.
//!
//! A command is encoded as one tag byte followed by its fields, each field the
//! ASCII decimal text of a number, fields separated by `/` (byte 47). Decoding
//! is total: malformed input yields the sentinels `Unknown` (unrecognised tag)
//! and `IllFormatted` (field extraction failure) instead of an error return.
//!
//! Coordinates travel as signed decimal fixed-point numerals (for example
//! `-3`, `12.5`, `0.25`); the `Coord` type holds such a numeral as plain
//! integers, so a value is exactly what its digit string says.

use vstd::prelude::*;

use crate::numeral::{
    dec_digits, digits_value, is_digit, lemma_dec_digits_len, lemma_dec_digits_token,
    lemma_dec_digits_value, lemma_digits_value_bound, lemma_digits_value_leading_zeros, parse_u64,
    parse_usize, pow10, spec_parse_u64, spec_parse_usize, u64_to_dec, zero_pad,
};
use crate::scan::{first_stop, lemma_first_stop_is, lemma_first_stop_none, stops, Stop};

verus! {

/// Field separator on the wire: ASCII `/`.
pub const SEPARATOR: u8 = 47;

/// ASCII `-`, the sign of a negative coordinate.
pub const MINUS: u8 = 45;

/// ASCII `.`, the decimal point of a fractional coordinate.
pub const DOT: u8 = 46;

pub const TAG_SPAWN: u8 = 2;

pub const TAG_REPOSITION: u8 = 3;

pub const TAG_DESPAWN: u8 = 4;

pub const TAG_ILL_FORMATTED: u8 = 5;

pub const TAG_UNKNOWN: u8 = 6;

pub const TAG_CHANGE_MAP: u8 = 7;

/// Most fractional digits a coordinate can carry; 10^19 still fits in a `u64`.
pub const MAX_FRAC_DIGITS: u8 = 19;

/// Which stage of field extraction failed while decoding.
#[derive(Copy, Clone, Debug, PartialEq, Eq, Structural)]
pub enum FormatError {
    EmptyMessage,
    MissingField,
    WrongType,
    InvalidValue,
    ByteAfterEnd,
}

/// A coordinate, held as the decimal fixed-point numeral that travels on the
/// wire: sign, integer part, and `frac_len` fractional digits whose value is
/// `frac` (leading zeros of the fractional part are significant, so `3.07`
/// is `frac == 7`, `frac_len == 2`).
#[derive(Copy, Clone, Debug, PartialEq, Eq, Structural)]
pub struct Coord {
    pub neg: bool,
    pub int_part: u64,
    pub frac: u64,
    pub frac_len: u8,
}

impl Coord {
    /// Well-formed: the fractional value fits in its declared digit count.
    pub open spec fn wf(self) -> bool {
        self.frac_len <= MAX_FRAC_DIGITS && self.frac < pow10(self.frac_len as nat)
    }

    /// A whole-number coordinate.
    pub fn integer(neg: bool, int_part: u64) -> (r: Coord)
        ensures
            r == (Coord { neg, int_part, frac: 0, frac_len: 0 }),
            r.wf(),
    {
        Coord { neg, int_part, frac: 0, frac_len: 0 }
    }

    /// Whether this coordinate is well-formed: what `wf` says, computed.
    pub fn check_wf(&self) -> (r: bool)
        ensures
            r == self.wf(),
    {
        self.frac_len <= MAX_FRAC_DIGITS && self.frac < pow10_u64(self.frac_len)
    }

    /// A coordinate with `frac_len` fractional digits of value `frac`;
    /// `None` if the fractional part does not fit its digit count.
    pub fn new(neg: bool, int_part: u64, frac: u64, frac_len: u8) -> (r: Option<Coord>)
        ensures
            r matches Some(c) ==> c == (Coord { neg, int_part, frac, frac_len }) && c.wf(),
            r is None <==> !(Coord { neg, int_part, frac, frac_len }).wf(),
    {
        if frac_len > MAX_FRAC_DIGITS {
            return None;
        }
        let bound = pow10_u64(frac_len);
        if frac < bound {
            Some(Coord { neg, int_part, frac, frac_len })
        } else {
            None
        }
    }
}

/// `10^e` for `e` up to 19.
fn pow10_u64(e: u8) -> (r: u64)
    requires
        e <= 19,
    ensures
        r == pow10(e as nat),
{
    let mut r: u64 = 1;
    let mut i: u8 = 0;
    while i < e
        invariant
            0 <= i <= e <= 19,
            r == pow10(i as nat),
        decreases e - i,
    {
        proof {
            assert(pow10((i + 1) as nat) == 10 * pow10(i as nat));
            lemma_pow10_increases((i + 1) as nat, 19);
            lemma_pow10_fits(19);
        }
        r = r * 10;
        i = i + 1;
    }
    r
}

/// `pow10` is monotonic in its exponent.
pub proof fn lemma_pow10_increases(a: nat, b: nat)
    requires
        a <= b,
    ensures
        pow10(a) <= pow10(b),
    decreases b - a,
{
    if a < b {
        lemma_pow10_increases(a, (b - 1) as nat);
        assert(pow10(b) == 10 * pow10((b - 1) as nat));
    }
}

/// `10^19` fits in a `u64`.
pub proof fn lemma_pow10_fits(e: nat)
    requires
        e <= 19,
    ensures
        pow10(e) <= 10000000000000000000,
{
    lemma_pow10_increases(e, 19);
    assert(pow10(0) == 1);
    assert(pow10(1) == 10);
    assert(pow10(2) == 100);
    assert(pow10(3) == 1000);
    assert(pow10(4) == 10000);
    assert(pow10(5) == 100000);
    assert(pow10(6) == 1000000);
    assert(pow10(7) == 10000000);
    assert(pow10(8) == 100000000);
    assert(pow10(9) == 1000000000);
    assert(pow10(10) == 10000000000);
    assert(pow10(11) == 100000000000);
    assert(pow10(12) == 1000000000000);
    assert(pow10(13) == 10000000000000);
    assert(pow10(14) == 100000000000000);
    assert(pow10(15) == 1000000000000000);
    assert(pow10(16) == 10000000000000000);
    assert(pow10(17) == 100000000000000000);
    assert(pow10(18) == 1000000000000000000);
    assert(pow10(19) == 10000000000000000000);
}

/// An x/y pair of coordinates.
#[derive(Copy, Clone, Debug, PartialEq, Eq, Structural)]
pub struct Position {
    pub x: Coord,
    pub y: Coord,
}

impl Position {
    pub open spec fn wf(self) -> bool {
        self.x.wf() && self.y.wf()
    }
}

/// A decoded game command. `Unknown` and `IllFormatted` are decode-only
/// sentinels: a correct encoder never puts them on the wire, and decoding
/// their reserved tags yields `Unknown`.
#[derive(Copy, Clone, Debug, PartialEq, Eq, Structural)]
pub enum Command {
    Spawn(usize),
    Reposition(usize, Position),
    Despawn(usize),
    ChangeMap(usize),
    Unknown,
    IllFormatted(FormatError),
}

impl Command {
    /// Well-formed: any coordinates carried are well-formed.
    pub open spec fn wf(self) -> bool {
        match self {
            Command::Reposition(_, p) => p.wf(),
            _ => true,
        }
    }

    /// Meant for the wire: everything but the two decode-only sentinels.
    pub open spec fn sendable(self) -> bool {
        !(self is Unknown || self is IllFormatted)
    }

    /// Whether this command is well-formed: what `wf` says, computed.
    pub fn check_wf(&self) -> (r: bool)
        ensures
            r == self.wf(),
    {
        match self {
            Command::Reposition(_, p) => p.x.check_wf() && p.y.check_wf(),
            _ => true,
        }
    }
}

/// The wire bytes of a coordinate: optional minus sign, the digits of the
/// integer part, then, if there are fractional digits, a dot and the
/// fractional digits padded with leading zeros to their declared count.
pub open spec fn coord_bytes(c: Coord) -> Seq<u8> {
    (if c.neg {
        seq![MINUS]
    } else {
        Seq::<u8>::empty()
    }) + dec_digits(c.int_part as nat) + (if c.frac_len == 0 {
        Seq::<u8>::empty()
    } else {
        seq![DOT] + zero_pad(dec_digits(c.frac as nat), c.frac_len as nat)
    })
}

/// The wire bytes of a command: tag byte, then the `/`-separated fields.
pub open spec fn spec_encode(c: Command) -> Seq<u8> {
    match c {
        Command::Spawn(id) => seq![TAG_SPAWN] + dec_digits(id as nat),
        Command::Reposition(id, p) => seq![TAG_REPOSITION] + dec_digits(id as nat)
            + seq![SEPARATOR] + coord_bytes(p.x) + seq![SEPARATOR] + coord_bytes(p.y),
        Command::Despawn(id) => seq![TAG_DESPAWN] + dec_digits(id as nat),
        Command::ChangeMap(seed) => seq![TAG_CHANGE_MAP] + dec_digits(seed as nat),
        Command::IllFormatted(_) => seq![TAG_ILL_FORMATTED],
        Command::Unknown => seq![TAG_UNKNOWN],
    }
}

/// Append the decimal digits of `n` to `out`.
fn append_dec(out: &mut Vec<u8>, n: usize)
    ensures
        final(out)@ == old(out)@ + dec_digits(n as nat),
{
    let mut digits = u64_to_dec(n as u64);
    out.append(&mut digits);
}

/// Append the wire bytes of a coordinate to `out`.
fn append_coord(out: &mut Vec<u8>, c: &Coord)
    requires
        c.wf(),
    ensures
        final(out)@ == old(out)@ + coord_bytes(*c),
{
    if c.neg {
        out.push(MINUS);
    }
    let mut digits = u64_to_dec(c.int_part);
    out.append(&mut digits);
    if c.frac_len > 0 {
        out.push(DOT);
        let frac_digits = u64_to_dec(c.frac);
        proof {
            lemma_pow10_fits(c.frac_len as nat);
            lemma_dec_digits_len(c.frac as nat, c.frac_len as nat);
        }
        let pad = c.frac_len as usize - frac_digits.len();
        let mut k: usize = 0;
        while k < pad
            invariant
                0 <= k <= pad,
                out@ == old(out)@ + (if c.neg {
                    seq![MINUS]
                } else {
                    Seq::<u8>::empty()
                }) + dec_digits(c.int_part as nat) + seq![DOT] + Seq::new(
                    k as nat,
                    |i: int| 48u8,
                ),
            decreases pad - k,
        {
            out.push(48);
            proof {
                assert(Seq::new((k + 1) as nat, |i: int| 48u8) =~= Seq::new(
                    k as nat,
                    |i: int| 48u8,
                ).push(48u8));
            }
            k = k + 1;
        }
        let mut frac_digits = frac_digits;
        out.append(&mut frac_digits);
        proof {
            assert(Seq::new(pad as nat, |i: int| 48u8) + dec_digits(c.frac as nat) =~= zero_pad(
                dec_digits(c.frac as nat),
                c.frac_len as nat,
            ));
            assert(out@ =~= old(out)@ + coord_bytes(*c));
        }
    } else {
        proof {
            assert(out@ =~= old(out)@ + coord_bytes(*c));
        }
    }
}

/// Where the first field of `s` ends: at the first separator or zero byte,
/// or at the end of the buffer.
pub open spec fn field_end(s: Seq<u8>) -> int {
    first_stop(Stop::FieldEnd, s)
}

/// The first field of `s`.
pub open spec fn field_token(s: Seq<u8>) -> Seq<u8> {
    s.take(field_end(s))
}

/// What remains of `s` after the first field and the byte that ended it.
pub open spec fn field_rest(s: Seq<u8>) -> Seq<u8> {
    if field_end(s) < s.len() {
        s.skip(field_end(s) + 1)
    } else {
        Seq::<u8>::empty()
    }
}

/// What a coordinate field parses to: an optional minus sign, an integer
/// numeral, and optionally a dot followed by at most `MAX_FRAC_DIGITS`
/// fractional digits. Anything else is `None`.
pub open spec fn spec_parse_coord(t: Seq<u8>) -> Option<Coord> {
    let neg = t.len() > 0 && t[0] == MINUS;
    let u = if neg {
        t.skip(1)
    } else {
        t
    };
    let dot = first_stop(Stop::Dot, u);
    if dot == u.len() {
        match spec_parse_u64(u) {
            Some(v) => Some(Coord { neg, int_part: v, frac: 0, frac_len: 0 }),
            None => None,
        }
    } else {
        let it = u.take(dot);
        let ft = u.skip(dot + 1);
        if ft.len() <= MAX_FRAC_DIGITS {
            match (spec_parse_u64(it), spec_parse_u64(ft)) {
                (Some(v), Some(f)) => Some(
                    Coord { neg, int_part: v, frac: f, frac_len: ft.len() as u8 },
                ),
                _ => None,
            }
        } else {
            None
        }
    }
}

/// The three fields of a `Reposition` body, decoded eagerly; the first field
/// that fails determines the result.
pub open spec fn spec_decode_reposition(body: Seq<u8>) -> Command {
    let t1 = field_token(body);
    let r1 = field_rest(body);
    let t2 = field_token(r1);
    let r2 = field_rest(r1);
    let t3 = field_token(r2);
    match spec_parse_usize(t1) {
        None => Command::IllFormatted(FormatError::InvalidValue),
        Some(id) => match spec_parse_coord(t2) {
            None => Command::IllFormatted(FormatError::InvalidValue),
            Some(x) => match spec_parse_coord(t3) {
                None => Command::IllFormatted(FormatError::InvalidValue),
                Some(y) => Command::Reposition(id, Position { x, y }),
            },
        },
    }
}

/// What a byte buffer decodes to. Total: an empty buffer, an unknown tag and
/// a malformed field all map to sentinel commands rather than an error.
pub open spec fn spec_decode(s: Seq<u8>) -> Command {
    if s.len() == 0 {
        Command::IllFormatted(FormatError::EmptyMessage)
    } else {
        let body = s.skip(1);
        if s[0] == TAG_SPAWN {
            match spec_parse_usize(field_token(body)) {
                Some(id) => Command::Spawn(id),
                None => Command::IllFormatted(FormatError::InvalidValue),
            }
        } else if s[0] == TAG_REPOSITION {
            spec_decode_reposition(body)
        } else if s[0] == TAG_DESPAWN {
            match spec_parse_usize(field_token(body)) {
                Some(id) => Command::Despawn(id),
                None => Command::IllFormatted(FormatError::InvalidValue),
            }
        } else if s[0] == TAG_CHANGE_MAP {
            match spec_parse_usize(field_token(body)) {
                Some(seed) => Command::ChangeMap(seed),
                None => Command::IllFormatted(FormatError::InvalidValue),
            }
        } else {
            Command::Unknown
        }
    }
}

/// A parsed coordinate is well-formed.
pub proof fn lemma_parse_coord_wf(t: Seq<u8>)
    ensures
        spec_parse_coord(t) matches Some(c) ==> c.wf(),
{
    let neg = t.len() > 0 && t[0] == MINUS;
    let u = if neg {
        t.skip(1)
    } else {
        t
    };
    let dot = first_stop(Stop::Dot, u);
    if dot == u.len() {
        assert(pow10(0) == 1);
    } else {
        let ft = u.skip(dot + 1);
        if ft.len() <= MAX_FRAC_DIGITS && spec_parse_u64(ft) is Some {
            lemma_digits_value_bound(ft);
        }
    }
}

/// Whatever the input, decoding yields a well-formed command.
pub proof fn lemma_decode_wf(s: Seq<u8>)
    ensures
        spec_decode(s).wf(),
{
    if s.len() > 0 && s[0] == TAG_REPOSITION {
        let body = s.skip(1);
        let r1 = field_rest(body);
        let r2 = field_rest(r1);
        lemma_parse_coord_wf(field_token(r1));
        lemma_parse_coord_wf(field_token(r2));
    }
}

/// Digit bytes neither end a field nor act as a dot or a sign.
proof fn lemma_digits_plain(s: Seq<u8>)
    requires
        forall|j: int| 0 <= j < s.len() ==> is_digit(#[trigger] s[j]),
    ensures
        forall|j: int| 0 <= j < s.len() ==> !stops(Stop::FieldEnd, #[trigger] s[j]),
        forall|j: int| 0 <= j < s.len() ==> !stops(Stop::Dot, #[trigger] s[j]),
        forall|j: int| 0 <= j < s.len() ==> s[j] != MINUS,
{
}

/// The wire bytes of a well-formed coordinate are non-empty and none of them
/// ends a field.
proof fn lemma_coord_bytes_plain(c: Coord)
    requires
        c.wf(),
    ensures
        coord_bytes(c).len() >= 1,
        forall|j: int|
            0 <= j < coord_bytes(c).len() ==> !stops(Stop::FieldEnd, #[trigger] coord_bytes(c)[j]),
{
    lemma_dec_digits_token(c.int_part as nat);
    lemma_dec_digits_token(c.frac as nat);
    let sign = if c.neg {
        seq![MINUS]
    } else {
        Seq::<u8>::empty()
    };
    let dd = dec_digits(c.int_part as nat);
    let ddf = dec_digits(c.frac as nat);
    let tail = if c.frac_len == 0 {
        Seq::<u8>::empty()
    } else {
        seq![DOT] + zero_pad(ddf, c.frac_len as nat)
    };
    assert(coord_bytes(c) == sign + dd + tail);
    assert forall|j: int|
        0 <= j < coord_bytes(c).len() implies !stops(
        Stop::FieldEnd,
        #[trigger] coord_bytes(c)[j],
    ) by {
        let b = coord_bytes(c)[j];
        if j < sign.len() {
            assert(b == MINUS);
        } else if j < sign.len() + dd.len() {
            assert(b == dd[j - sign.len()]);
            assert(is_digit(b));
        } else {
            let k = j - sign.len() - dd.len();
            assert(b == tail[k]);
            if k == 0 {
                assert(b == DOT);
            } else {
                let pad = zero_pad(ddf, c.frac_len as nat);
                assert(b == pad[k - 1]);
                if ddf.len() >= c.frac_len as nat {
                    assert(is_digit(b));
                } else {
                    if k - 1 < c.frac_len as nat - ddf.len() {
                        assert(b == 48);
                    } else {
                        assert(b == ddf[k - 1 - (c.frac_len as nat - ddf.len())]);
                        assert(is_digit(b));
                    }
                }
            }
        }
    }
}

/// Parsing the wire bytes of a well-formed coordinate gives it back.
pub proof fn lemma_coord_roundtrip(c: Coord)
    requires
        c.wf(),
    ensures
        spec_parse_coord(coord_bytes(c)) == Some(c),
{
    lemma_dec_digits_token(c.int_part as nat);
    lemma_dec_digits_value(c.int_part as nat);
    lemma_dec_digits_token(c.frac as nat);
    lemma_dec_digits_value(c.frac as nat);
    let t = coord_bytes(c);
    let dd = dec_digits(c.int_part as nat);
    let ddf = dec_digits(c.frac as nat);
    lemma_digits_plain(dd);
    lemma_digits_plain(ddf);
    let tail = if c.frac_len == 0 {
        Seq::<u8>::empty()
    } else {
        seq![DOT] + zero_pad(ddf, c.frac_len as nat)
    };
    // The sign is recognised: a digit is never a minus sign.
    if c.neg {
        assert(t[0] == MINUS);
    } else {
        assert(t[0] == dd[0]);
        assert(is_digit(t[0]));
    }
    let neg = t.len() > 0 && t[0] == MINUS;
    assert(neg == c.neg);
    let u = if neg {
        t.skip(1)
    } else {
        t
    };
    assert(u =~= dd + tail);
    if c.frac_len == 0 {
        assert(u =~= dd);
        lemma_first_stop_none(Stop::Dot, u);
        assert(spec_parse_u64(u) == Some(c.int_part));
        assert(pow10(0) == 1);
        assert(c.frac == 0);
    } else {
        let pad = zero_pad(ddf, c.frac_len as nat);
        lemma_pow10_fits(c.frac_len as nat);
        lemma_dec_digits_len(c.frac as nat, c.frac_len as nat);
        assert(pad.len() == c.frac_len as nat);
        // The first dot of `u` is right after the integer digits.
        assert(u[dd.len() as int] == DOT);
        assert forall|j: int| 0 <= j < dd.len() implies !stops(Stop::Dot, u[j]) by {
            assert(u[j] == dd[j]);
        }
        lemma_first_stop_is(Stop::Dot, u, dd.len() as int);
        let dot = first_stop(Stop::Dot, u);
        assert(u.take(dot) =~= dd);
        assert(u.skip(dot + 1) =~= pad);
        assert(spec_parse_u64(dd) == Some(c.int_part));
        // The padded fractional digits parse back to the fractional value.
        let zeros = Seq::new((c.frac_len as nat - ddf.len()) as nat, |i: int| 48u8);
        if ddf.len() < c.frac_len as nat {
            assert(pad =~= zeros + ddf);
            lemma_digits_value_leading_zeros(zeros, ddf);
        } else {
            assert(pad =~= ddf);
        }
        assert(digits_value(pad) == c.frac);
        assert forall|j: int| 0 <= j < pad.len() implies is_digit(#[trigger] pad[j]) by {
            if ddf.len() < c.frac_len as nat {
                if j < zeros.len() {
                    assert(pad[j] == 48);
                } else {
                    assert(pad[j] == ddf[j - zeros.len()]);
                }
            } else {
                assert(pad[j] == ddf[j]);
            }
        }
        assert(spec_parse_u64(pad) == Some(c.frac));
    }
}

/// Round-trip law: decoding the encoding of a well-formed command meant for
/// the wire gives the command back, unchanged.
#[verifier::rlimit(60)]
pub proof fn lemma_encode_decode_roundtrip(c: Command)
    requires
        c.wf(),
        c.sendable(),
    ensures
        spec_decode(spec_encode(c)) == c,
{
    let s = spec_encode(c);
    match c {
        Command::Spawn(id) => {
            assert(s.skip(1) =~= dec_digits(id as nat));
            lemma_id_field_roundtrip(s, id);
        },
        Command::Despawn(id) => {
            assert(s.skip(1) =~= dec_digits(id as nat));
            lemma_id_field_roundtrip(s, id);
        },
        Command::ChangeMap(seed) => {
            assert(s.skip(1) =~= dec_digits(seed as nat));
            lemma_id_field_roundtrip(s, seed);
        },
        Command::Reposition(id, p) => {
            let dd = dec_digits(id as nat);
            let cbx = coord_bytes(p.x);
            let cby = coord_bytes(p.y);
            lemma_dec_digits_token(id as nat);
            lemma_dec_digits_value(id as nat);
            lemma_digits_plain(dd);
            lemma_coord_bytes_plain(p.x);
            lemma_coord_bytes_plain(p.y);
            let body = s.skip(1);
            assert(body =~= dd + seq![SEPARATOR] + cbx + seq![SEPARATOR] + cby);
            // First field: the identifier digits, ended by the separator.
            assert(body[dd.len() as int] == SEPARATOR);
            assert forall|j: int| 0 <= j < dd.len() implies !stops(Stop::FieldEnd, body[j]) by {
                assert(body[j] == dd[j]);
            }
            lemma_first_stop_is(Stop::FieldEnd, body, dd.len() as int);
            assert(field_token(body) =~= dd);
            assert(spec_parse_usize(dd) == Some(id));
            let r1 = field_rest(body);
            assert(r1 =~= cbx + seq![SEPARATOR] + cby);
            // Second field: the x coordinate, ended by the separator.
            assert(r1[cbx.len() as int] == SEPARATOR);
            assert forall|j: int| 0 <= j < cbx.len() implies !stops(Stop::FieldEnd, r1[j]) by {
                assert(r1[j] == cbx[j]);
            }
            lemma_first_stop_is(Stop::FieldEnd, r1, cbx.len() as int);
            assert(field_token(r1) =~= cbx);
            let r2 = field_rest(r1);
            assert(r2 =~= cby);
            // Third field: the y coordinate, running to the end of the buffer.
            assert forall|j: int| 0 <= j < r2.len() implies !stops(Stop::FieldEnd, r2[j]) by {
                assert(r2[j] == cby[j]);
            }
            lemma_first_stop_none(Stop::FieldEnd, r2);
            assert(field_token(r2) =~= cby);
            lemma_coord_roundtrip(p.x);
            lemma_coord_roundtrip(p.y);
        },
        _ => {},
    }
}

/// An encoded command contains no zero byte, so a frame terminator can
/// never appear inside a frame's body.
pub proof fn lemma_encode_no_zero(c: Command)
    requires
        c.wf(),
    ensures
        forall|j: int| 0 <= j < spec_encode(c).len() ==> #[trigger] spec_encode(c)[j] != 0,
{
    let s = spec_encode(c);
    match c {
        Command::Spawn(id) => {
            assert(s.skip(1) =~= dec_digits(id as nat));
            lemma_tag_and_digits_no_zero(s, id);
        },
        Command::Despawn(id) => {
            assert(s.skip(1) =~= dec_digits(id as nat));
            lemma_tag_and_digits_no_zero(s, id);
        },
        Command::ChangeMap(seed) => {
            assert(s.skip(1) =~= dec_digits(seed as nat));
            lemma_tag_and_digits_no_zero(s, seed);
        },
        Command::Reposition(id, p) => {
            let dd = dec_digits(id as nat);
            let cbx = coord_bytes(p.x);
            let cby = coord_bytes(p.y);
            lemma_dec_digits_token(id as nat);
            lemma_coord_bytes_plain(p.x);
            lemma_coord_bytes_plain(p.y);
            assert forall|j: int| 0 <= j < s.len() implies #[trigger] s[j] != 0 by {
                if j == 0 {
                } else if j < 1 + dd.len() {
                    assert(s[j] == dd[j - 1]);
                    assert(is_digit(s[j]));
                } else if j == 1 + dd.len() {
                    assert(s[j] == SEPARATOR);
                } else if j < 2 + dd.len() + cbx.len() {
                    assert(s[j] == cbx[j - 2 - dd.len()]);
                    assert(!stops(Stop::FieldEnd, s[j]));
                } else if j == 2 + dd.len() + cbx.len() {
                    assert(s[j] == SEPARATOR);
                } else {
                    assert(s[j] == cby[j - 3 - dd.len() - cbx.len()]);
                    assert(!stops(Stop::FieldEnd, s[j]));
                }
            }
        },
        _ => {},
    }
}

/// A tag byte followed by the digits of a number holds no zero byte.
proof fn lemma_tag_and_digits_no_zero(s: Seq<u8>, id: usize)
    requires
        s.len() == 1 + dec_digits(id as nat).len(),
        s[0] != 0,
        s.skip(1) == dec_digits(id as nat),
    ensures
        forall|j: int| 0 <= j < s.len() ==> #[trigger] s[j] != 0,
{
    lemma_dec_digits_token(id as nat);
    assert forall|j: int| 0 <= j < s.len() implies #[trigger] s[j] != 0 by {
        if j > 0 {
            assert(s[j] == dec_digits(id as nat)[j - 1]);
            assert(is_digit(s[j]));
        }
    }
}

/// Shared argument for the single-field commands: the digits of the
/// identifier are the whole body and parse back to it.
proof fn lemma_id_field_roundtrip(s: Seq<u8>, id: usize)
    requires
        s.len() >= 1,
        s.skip(1) == dec_digits(id as nat),
    ensures
        spec_parse_usize(field_token(s.skip(1))) == Some(id),
{
    let dd = dec_digits(id as nat);
    lemma_dec_digits_token(id as nat);
    lemma_dec_digits_value(id as nat);
    lemma_digits_plain(dd);
    lemma_first_stop_none(Stop::FieldEnd, dd);
    assert(field_token(dd) =~= dd);
}

/// Collect the field of `bytes` that starts at `from`; returns the field and
/// the position just past the byte that ended it.
fn next_field(bytes: &[u8], from: usize) -> (r: (Vec<u8>, usize))
    requires
        from <= bytes@.len(),
    ensures
        r.0@ == field_token(bytes@.skip(from as int)),
        from <= r.1 <= bytes@.len(),
        bytes@.skip(r.1 as int) == field_rest(bytes@.skip(from as int)),
{
    let ghost s = bytes@.skip(from as int);
    let mut token: Vec<u8> = Vec::new();
    let mut i: usize = from;
    while i < bytes.len()
        invariant
            from <= i <= bytes@.len(),
            s == bytes@.skip(from as int),
            token@ == s.take(i - from),
            forall|j: int| 0 <= j < i - from ==> !stops(Stop::FieldEnd, #[trigger] s[j]),
        decreases bytes@.len() - i,
    {
        let b = bytes[i];
        proof {
            assert(s[i - from] == bytes@[i as int]);
        }
        if b == SEPARATOR || b == 0 {
            proof {
                lemma_first_stop_is(Stop::FieldEnd, s, i - from);
                assert(token@ =~= field_token(s));
                assert(bytes@.skip(i + 1) =~= field_rest(s));
            }
            return (token, i + 1);
        }
        token.push(b);
        proof {
            assert(token@ =~= s.take(i + 1 - from));
        }
        i = i + 1;
    }
    proof {
        lemma_first_stop_none(Stop::FieldEnd, s);
        assert(token@ =~= field_token(s));
        assert(bytes@.skip(bytes@.len() as int) =~= field_rest(s));
    }
    (token, bytes.len())
}

/// Position of the first dot at or after `from`, or the end of the buffer.
fn find_dot(bytes: &[u8], from: usize) -> (i: usize)
    requires
        from <= bytes@.len(),
    ensures
        from <= i <= bytes@.len(),
        i - from == first_stop(Stop::Dot, bytes@.skip(from as int)),
{
    let ghost s = bytes@.skip(from as int);
    let mut i: usize = from;
    while i < bytes.len()
        invariant
            from <= i <= bytes@.len(),
            s == bytes@.skip(from as int),
            forall|j: int| 0 <= j < i - from ==> !stops(Stop::Dot, #[trigger] s[j]),
        decreases bytes@.len() - i,
    {
        proof {
            assert(s[i - from] == bytes@[i as int]);
        }
        if bytes[i] == DOT {
            proof {
                lemma_first_stop_is(Stop::Dot, s, i - from);
            }
            return i;
        }
        i = i + 1;
    }
    proof {
        lemma_first_stop_none(Stop::Dot, s);
    }
    i
}

/// Parse one coordinate field.
pub fn parse_coord(token: &[u8]) -> (r: Option<Coord>)
    ensures
        r == spec_parse_coord(token@),
        r matches Some(c) ==> c.wf(),
{
    proof {
        lemma_parse_coord_wf(token@);
    }
    let n = token.len();
    let neg = n > 0 && token[0] == MINUS;
    let start: usize = if neg {
        1
    } else {
        0
    };
    let ghost u = if neg {
        token@.skip(1)
    } else {
        token@
    };
    proof {
        assert(u =~= token@.skip(start as int));
    }
    let dot = find_dot(token, start);
    if dot == n {
        let it = vstd::slice::slice_subrange(token, start, n);
        proof {
            assert(it@ =~= u);
        }
        match parse_u64(it) {
            Some(v) => Some(Coord { neg, int_part: v, frac: 0, frac_len: 0 }),
            None => None,
        }
    } else {
        let flen = n - (dot + 1);
        if flen > MAX_FRAC_DIGITS as usize {
            return None;
        }
        let it = vstd::slice::slice_subrange(token, start, dot);
        let ft = vstd::slice::slice_subrange(token, dot + 1, n);
        proof {
            assert(it@ =~= u.take(dot - start));
            assert(ft@ =~= u.skip(dot - start + 1));
        }
        match (parse_u64(it), parse_u64(ft)) {
            (Some(v), Some(f)) => Some(
                Coord { neg, int_part: v, frac: f, frac_len: flen as u8 },
            ),
            _ => None,
        }
    }
}

impl Command {
    /// Decode a byte buffer. Total: never fails, never panics; malformed
    /// input comes back as `Unknown` or `IllFormatted`.
    pub fn decode(bytes: &[u8]) -> (c: Command)
        ensures
            c == spec_decode(bytes@),
            c.wf(),
            bytes@.len() == 0 ==> c == Command::IllFormatted(FormatError::EmptyMessage),
            bytes@.len() > 0 && !(bytes@[0] == TAG_SPAWN || bytes@[0] == TAG_REPOSITION
                || bytes@[0] == TAG_DESPAWN || bytes@[0] == TAG_CHANGE_MAP) ==> c
                == Command::Unknown,
    {
        proof {
            lemma_decode_wf(bytes@);
        }
        if bytes.len() == 0 {
            return Command::IllFormatted(FormatError::EmptyMessage);
        }
        let tag = bytes[0];
        if tag == TAG_SPAWN {
            let (tok, _) = next_field(bytes, 1);
            match parse_usize(tok.as_slice()) {
                Some(id) => Command::Spawn(id),
                None => Command::IllFormatted(FormatError::InvalidValue),
            }
        } else if tag == TAG_REPOSITION {
            let (t1, p1) = next_field(bytes, 1);
            let (t2, p2) = next_field(bytes, p1);
            let (t3, _) = next_field(bytes, p2);
            match parse_usize(t1.as_slice()) {
                None => Command::IllFormatted(FormatError::InvalidValue),
                Some(id) => match parse_coord(t2.as_slice()) {
                    None => Command::IllFormatted(FormatError::InvalidValue),
                    Some(x) => match parse_coord(t3.as_slice()) {
                        None => Command::IllFormatted(FormatError::InvalidValue),
                        Some(y) => Command::Reposition(id, Position { x, y }),
                    },
                },
            }
        } else if tag == TAG_DESPAWN {
            let (tok, _) = next_field(bytes, 1);
            match parse_usize(tok.as_slice()) {
                Some(id) => Command::Despawn(id),
                None => Command::IllFormatted(FormatError::InvalidValue),
            }
        } else if tag == TAG_CHANGE_MAP {
            let (tok, _) = next_field(bytes, 1);
            match parse_usize(tok.as_slice()) {
                Some(seed) => Command::ChangeMap(seed),
                None => Command::IllFormatted(FormatError::InvalidValue),
            }
        } else {
            Command::Unknown
        }
    }
}

impl Command {
    /// The encoded form of this command.
    pub fn as_bytes(&self) -> (r: Vec<u8>)
        requires
            self.wf(),
        ensures
            r@ == spec_encode(*self),
    {
        let mut r: Vec<u8> = Vec::new();
        match self {
            Command::Spawn(id) => {
                r.push(TAG_SPAWN);
                append_dec(&mut r, *id);
                proof {
                    assert(r@ =~= spec_encode(*self));
                }
            },
            Command::Reposition(id, p) => {
                r.push(TAG_REPOSITION);
                append_dec(&mut r, *id);
                r.push(SEPARATOR);
                append_coord(&mut r, &p.x);
                r.push(SEPARATOR);
                append_coord(&mut r, &p.y);
                proof {
                    assert(r@ =~= spec_encode(*self));
                }
            },
            Command::Despawn(id) => {
                r.push(TAG_DESPAWN);
                append_dec(&mut r, *id);
                proof {
                    assert(r@ =~= spec_encode(*self));
                }
            },
            Command::ChangeMap(seed) => {
                r.push(TAG_CHANGE_MAP);
                append_dec(&mut r, *seed);
                proof {
                    assert(r@ =~= spec_encode(*self));
                }
            },
            Command::IllFormatted(_) => {
                r.push(TAG_ILL_FORMATTED);
                proof {
                    assert(r@ =~= spec_encode(*self));
                }
            },
            Command::Unknown => {
                r.push(TAG_UNKNOWN);
                proof {
                    assert(r@ =~= spec_encode(*self));
                }
            },
        }
        r
    }
}

} // verus!
