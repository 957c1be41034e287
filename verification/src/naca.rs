//! NACA 4-digit airfoil codes.
//!
//! A code such as `2412` gives the maximum camber in percent of the chord (2),
//! its position in tenths of the chord (4) and the thickness in percent (12).
use vstd::prelude::*;

verus! {

/// Why a NACA code was refused.
#[derive(Debug, Clone, Copy, PartialEq, Eq, Structural)]
pub enum NacaError {
    /// A character of the code is not a decimal digit.
    InvalidDigit,
    /// The code is made of digits, but not of exactly four.
    WrongLength,
}

/// The parameters of a NACA 4-digit airfoil, as the code gives them.
pub struct Naca4 {
    /// `NACA ` followed by the code.
    pub name: String,
    /// Maximum camber, in percent of the chord (first digit).
    pub max_camber_pct: u32,
    /// Position of the maximum camber, in tenths of the chord (second digit).
    pub camber_pos_tenths: u32,
    /// Maximum thickness, in percent of the chord (last two digits).
    pub thickness_pct: u32,
}

/// Where one generated point lies: at which station along the chord, on which surface.
#[derive(Debug, Clone, Copy, PartialEq, Eq, Structural)]
pub struct StationPoint {
    /// Index of the chordwise station.
    pub station: usize,
    /// The point is on the upper surface (else on the lower one).
    pub upper: bool,
}

/// A decimal digit, in the sense of `char::to_digit(10)`.
pub open spec fn is_digit(c: char) -> bool {
    48 <= (c as u32) <= 57
}

/// The value of a decimal digit.
pub open spec fn digit_value(c: char) -> u32 {
    ((c as u32) - 48) as u32
}

/// The digits are exactly the ten characters `0` to `9`, and each has its face value.
pub proof fn lemma_digits()
    ensures
        forall|c: char|
            #[trigger] is_digit(c) <==> (c == '0' || c == '1' || c == '2' || c == '3' || c == '4'
                || c == '5' || c == '6' || c == '7' || c == '8' || c == '9'),
        digit_value('0') == 0 && digit_value('1') == 1 && digit_value('2') == 2 && digit_value('3')
            == 3 && digit_value('4') == 4,
        digit_value('5') == 5 && digit_value('6') == 6 && digit_value('7') == 7 && digit_value('8')
            == 8 && digit_value('9') == 9,
{
    assert forall|c: char|
        #[trigger] is_digit(c) <==> (c == '0' || c == '1' || c == '2' || c == '3' || c == '4' || c
            == '5' || c == '6' || c == '7' || c == '8' || c == '9') by {
        if is_digit(c) {
            let u = c as u32;
            vstd::utf8::char_u32_cast(c, u);
            vstd::utf8::char_u32_cast('0', 48u32);
            vstd::utf8::char_u32_cast('1', 49u32);
            vstd::utf8::char_u32_cast('2', 50u32);
            vstd::utf8::char_u32_cast('3', 51u32);
            vstd::utf8::char_u32_cast('4', 52u32);
            vstd::utf8::char_u32_cast('5', 53u32);
            vstd::utf8::char_u32_cast('6', 54u32);
            vstd::utf8::char_u32_cast('7', 55u32);
            vstd::utf8::char_u32_cast('8', 56u32);
            vstd::utf8::char_u32_cast('9', 57u32);
        }
    }
}

/// Every code of four characters taken from `0` to `9` is a NACA 4-digit code, and
/// reading it gives the face values of its digits.
pub proof fn lemma_four_digits_accepted(code: Seq<char>)
    requires
        code.len() == 4,
        forall|i: int|
            0 <= i < 4 ==> (#[trigger] code[i] == '0' || code[i] == '1' || code[i] == '2' || code[i]
                == '3' || code[i] == '4' || code[i] == '5' || code[i] == '6' || code[i] == '7'
                || code[i] == '8' || code[i] == '9'),
    ensures
        is_naca4_code(code),
        naca4_code_error(code) is None,
        forall|i: int| 0 <= i < 4 ==> #[trigger] digit_value(code[i]) < 10,
{
    lemma_digits();
    assert forall|i: int| 0 <= i < code.len() implies is_digit(#[trigger] code[i]) by {
        assert(code[i] == '0' || code[i] == '1' || code[i] == '2' || code[i] == '3' || code[i]
            == '4' || code[i] == '5' || code[i] == '6' || code[i] == '7' || code[i] == '8'
            || code[i] == '9');
    }
}

/// A NACA 4-digit code: exactly four decimal digits.
pub open spec fn is_naca4_code(code: Seq<char>) -> bool {
    code.len() == 4 && forall|i: int| 0 <= i < code.len() ==> is_digit(#[trigger] code[i])
}

/// Why `code` is not a NACA 4-digit code, if it is not: a character that is not a
/// digit is reported first, and only then a count of digits other than four.
pub open spec fn naca4_code_error(code: Seq<char>) -> Option<NacaError> {
    if exists|i: int| 0 <= i < code.len() && !is_digit(#[trigger] code[i]) {
        Some(NacaError::InvalidDigit)
    } else if code.len() != 4 {
        Some(NacaError::WrongLength)
    } else {
        None
    }
}

/// Tells whether `code` is a NACA 4-digit code, and if not, why not.
pub fn check_naca4_code(code: &str) -> (r: Result<(), NacaError>)
    ensures
        r is Ok <==> is_naca4_code(code@),
        match naca4_code_error(code@) {
            None => r is Ok,
            Some(e) => r == Err::<(), NacaError>(e),
        },
{
    let v = crate::text::chars_of(code);
    let mut i: usize = 0;
    while i < v.len()
        invariant
            i <= v.len(),
            v@ == code@,
            forall|j: int| 0 <= j < i ==> is_digit(#[trigger] v@[j]),
        decreases v.len() - i,
    {
        let u = v[i] as u32;
        if u < 48 || u > 57 {
            assert(!is_digit(code@[i as int]));
            return Err(NacaError::InvalidDigit);
        }
        i = i + 1;
    }
    if v.len() != 4 {
        return Err(NacaError::WrongLength);
    }
    Ok(())
}

/// Reads a NACA 4-digit code such as `2412`: maximum camber 2 %, at 4 tenths of the
/// chord, thickness 12 %.
pub fn parse_naca4(code: &str) -> (a: Naca4)
    requires
        is_naca4_code(code@),
    ensures
        a.name@ == "NACA "@ + code@,
        a.max_camber_pct == digit_value(code@[0]),
        a.camber_pos_tenths == digit_value(code@[1]),
        a.thickness_pct == digit_value(code@[2]) * 10 + digit_value(code@[3]),
{
    let v = crate::text::chars_of(code);
    assert(is_digit(v@[0]) && is_digit(v@[1]) && is_digit(v@[2]) && is_digit(v@[3]));
    let d0 = v[0] as u32 - 48;
    let d1 = v[1] as u32 - 48;
    let d2 = v[2] as u32 - 48;
    let d3 = v[3] as u32 - 48;
    let mut name = String::from_str("NACA ");
    name.append(code);
    Naca4 { name, max_camber_pct: d0, camber_pos_tenths: d1, thickness_pct: d2 * 10 + d3 }
}

/// The order in which the points of a generated NACA airfoil are laid out, for
/// `n_points` chordwise stations (station 0 at the leading edge): the upper surface
/// from the last station to the leading edge, then the lower surface from the station
/// after the leading edge to the last one, so that the contour runs trailing edge,
/// upper surface, leading edge, lower surface, trailing edge.
pub open spec fn naca4_layout_spec(n_points: nat) -> Seq<StationPoint> {
    if n_points == 0 {
        seq![]
    } else {
        Seq::new(
            (2 * n_points - 1) as nat,
            |k: int|
                if k < n_points {
                    StationPoint { station: (n_points - 1 - k) as usize, upper: true }
                } else {
                    StationPoint { station: (k - n_points + 1) as usize, upper: false }
                },
        )
    }
}

/// Lays out the points of a generated NACA airfoil over `n_points` stations.
pub fn naca4_layout(n_points: usize) -> (r: Vec<StationPoint>)
    ensures
        r@ == naca4_layout_spec(n_points as nat),
{
    let mut r: Vec<StationPoint> = Vec::new();
    if n_points == 0 {
        assert(r@ =~= naca4_layout_spec(0));
        return r;
    }
    let mut i: usize = n_points;
    while i > 0
        invariant
            i <= n_points,
            r.len() == n_points - i,
            forall|k: int|
                0 <= k < r.len() ==> #[trigger] r@[k] == (StationPoint {
                    station: (n_points - 1 - k) as usize,
                    upper: true,
                }),
        decreases i,
    {
        i = i - 1;
        r.push(StationPoint { station: i, upper: true });
    }
    let mut s: usize = 1;
    while s < n_points
        invariant
            1 <= s <= n_points,
            r.len() == n_points + s - 1,
            forall|k: int|
                0 <= k < r.len() ==> #[trigger] r@[k] == (if k < n_points {
                    StationPoint { station: (n_points - 1 - k) as usize, upper: true }
                } else {
                    StationPoint { station: (k - n_points + 1) as usize, upper: false }
                }),
        decreases n_points - s,
    {
        r.push(StationPoint { station: s, upper: false });
        s = s + 1;
    }
    assert(r@ =~= naca4_layout_spec(n_points as nat));
    r
}

/// Some point of `l` lies at station `st` on the given surface.
pub open spec fn has_point(l: Seq<StationPoint>, st: int, upper: bool) -> bool {
    exists|i: int| 0 <= i < l.len() && l[i].station == st && l[i].upper == upper
}

/// The generated contour starts and ends at the last station (the trailing-edge side),
/// passes the leading edge (station 0) once, on the upper surface, and has every upper
/// point before every lower point, the upper stations strictly falling and the lower
/// stations strictly rising; each station has one upper point and, but for the leading
/// edge, one lower point.
pub proof fn lemma_naca4_layout_contour(n: nat)
    requires
        1 <= n <= usize::MAX,
    ensures
        ({
            let l = naca4_layout_spec(n);
            &&& l.len() == 2 * n - 1
            &&& l[0].station == n - 1 && l[0].upper
            &&& l[l.len() - 1].station == n - 1
            &&& forall|i: int, j: int|
                0 <= i < j < l.len() && #[trigger] l[i].upper && #[trigger] l[j].upper ==> l[i].station
                    > l[j].station
            &&& forall|i: int, j: int|
                0 <= i < j < l.len() && !#[trigger] l[i].upper && !#[trigger] l[j].upper
                    ==> l[i].station < l[j].station
            &&& forall|i: int, j: int|
                0 <= i < l.len() && 0 <= j < l.len() && #[trigger] l[i].upper && !#[trigger] l[j].upper
                    ==> i < j
            &&& forall|st: int| 0 <= st < n ==> #[trigger] has_point(l, st, true)
            &&& forall|st: int| 1 <= st < n ==> #[trigger] has_point(l, st, false)
            &&& forall|i: int| 0 <= i < l.len() && !#[trigger] l[i].upper ==> l[i].station != 0
        }),
{
    let l = naca4_layout_spec(n);
    assert forall|st: int| 0 <= st < n implies #[trigger] has_point(l, st, true) by {
        let i = n - 1 - st;
        assert(l[i].station == st && l[i].upper);
    }
    assert forall|st: int| 1 <= st < n implies #[trigger] has_point(l, st, false) by {
        let i = st + n - 1;
        assert(l[i].station == st && !l[i].upper);
    }
}

} // verus!
