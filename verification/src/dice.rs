//! Dice notation: an optional count, the letter `d`, and a magnitude,
//! with whitespace allowed around the numbers, as in `2d6`.

use vstd::prelude::*;

use crate::rng::rand_below;
use crate::text::dec_value;
use crate::text::dec_string;
use crate::text::parse_u64;

verus! {

/// A dice roll request: how many dice, and how many sides each has.
#[derive(PartialEq, Eq, Structural, Clone, Copy, Debug)]
pub struct Dice {
    /// How many dice to roll.
    pub count: u64,
    /// How many sides each die has.
    pub magnitude: u64,
}

/// Whitespace accepted around the numbers of a dice expression.
pub open spec fn is_dice_ws(c: char) -> bool {
    c == ' ' || c == '\t' || c == '\r' || c == '\n'
}

/// The first position at or after `i` holding a non-whitespace character.
pub open spec fn ws_end(s: Seq<char>, i: int) -> int
    decreases s.len() - i,
{
    if 0 <= i < s.len() && is_dice_ws(s[i]) {
        ws_end(s, i + 1)
    } else {
        i
    }
}

/// The first position at or after `i` holding a non-digit character.
pub open spec fn digits_end(s: Seq<char>, i: int) -> int
    decreases s.len() - i,
{
    if 0 <= i < s.len() && crate::tokenizer::is_digit_char(s[i]) {
        digits_end(s, i + 1)
    } else {
        i
    }
}

/// The dice expression a string denotes, if any: optional whitespace, an
/// optional count, `d` or `D`, a magnitude, then anything. A count or
/// magnitude too large for 64 bits rejects the whole expression, and the
/// result must satisfy [`Dice::valid_spec`].
pub open spec fn dice_of(s: Seq<char>) -> Option<Dice> {
    let p0 = ws_end(s, 0);
    let p1 = digits_end(s, p0);
    if p1 > p0 && dec_value(s.subrange(p0, p1)) > u64::MAX {
        None
    } else {
        let count = if p1 > p0 {
            dec_value(s.subrange(p0, p1)) as u64
        } else {
            1u64
        };
        let p2 = if p1 > p0 {
            ws_end(s, p1)
        } else {
            p0
        };
        if p2 < s.len() && (s[p2] == 'd' || s[p2] == 'D') {
            let p3 = ws_end(s, p2 + 1);
            let p4 = digits_end(s, p3);
            if p4 > p3 && dec_value(s.subrange(p3, p4)) <= u64::MAX {
                let d = Dice { count, magnitude: dec_value(s.subrange(p3, p4)) as u64 };
                if d.valid_spec() {
                    Some(d)
                } else {
                    None
                }
            } else {
                None
            }
        } else {
            None
        }
    }
}

/// Executable scan to the end of a whitespace run.
fn skip_ws(s: &str, from: usize) -> (r: usize)
    requires
        from <= s@.len(),
    ensures
        r == ws_end(s@, from as int),
        from <= r <= s@.len(),
{
    let n = s.unicode_len();
    let mut i = from;
    loop
        invariant_except_break
            n == s@.len(),
            from <= i <= n,
            ws_end(s@, from as int) == ws_end(s@, i as int),
        ensures
            i == ws_end(s@, from as int),
            from <= i <= n,
        decreases n - i,
    {
        if i >= n {
            break ;
        }
        let c = s.get_char(i);
        if !(c == ' ' || c == '\t' || c == '\r' || c == '\n') {
            break ;
        }
        i += 1;
    }
    i
}

/// Executable scan to the end of a digit run.
fn skip_digits(s: &str, from: usize) -> (r: usize)
    requires
        from <= s@.len(),
    ensures
        r == digits_end(s@, from as int),
        from <= r <= s@.len(),
{
    let n = s.unicode_len();
    let mut i = from;
    loop
        invariant_except_break
            n == s@.len(),
            from <= i <= n,
            digits_end(s@, from as int) == digits_end(s@, i as int),
        ensures
            i == digits_end(s@, from as int),
            from <= i <= n,
        decreases n - i,
    {
        if i >= n {
            break ;
        }
        let c = s.get_char(i);
        if !(c >= '0' && c <= '9') {
            break ;
        }
        i += 1;
    }
    i
}

/// All characters of a digit run are digits, and the run ends in bounds.
proof fn lemma_digits_run(s: Seq<char>, i: int)
    requires
        0 <= i <= s.len(),
    ensures
        i <= digits_end(s, i) <= s.len(),
        forall|k: int| i <= k < digits_end(s, i) ==> crate::tokenizer::is_digit_char(s[k]),
    decreases s.len() - i,
{
    if i < s.len() && crate::tokenizer::is_digit_char(s[i]) {
        lemma_digits_run(s, i + 1);
        assert(digits_end(s, i) == digits_end(s, i + 1));
        assert forall|k: int|
            i <= k < digits_end(s, i) implies crate::tokenizer::is_digit_char(s[k]) by {
            if k > i {
                assert(crate::tokenizer::is_digit_char(s[k]));
            }
        }
    }
}

/// Parse a number out of a digit run; `None` when it overflows 64 bits.
fn parse_run(s: &str, from: usize, to: usize) -> (r: Option<u64>)
    requires
        from < to <= s@.len(),
        to == digits_end(s@, from as int),
    ensures
        r is Some <==> dec_value(s@.subrange(from as int, to as int)) <= u64::MAX,
        r matches Some(v) ==> v == dec_value(s@.subrange(from as int, to as int)),
{
    let sub = s.substring_char(from, to);
    proof {
        lemma_digits_run(s@, from as int);
        assert(sub@ =~= s@.subrange(from as int, to as int));
        assert(crate::tokenizer::is_digit_char(sub@[0]));
        assert(sub@[0] != '+');
        assert(crate::text::dec_digits_part(sub@) =~= sub@);
        assert(crate::text::all_digits(sub@));
    }
    parse_u64(sub)
}

impl Dice {
    /// The accepted range: at least one die but fewer than a hundred, with
    /// at least one side each.
    pub open spec fn valid_spec(&self) -> bool {
        self.count > 0 && self.magnitude > 0 && self.count < 100
    }

    /// A dice value from a parsed (count, magnitude) pair; a missing count
    /// means one die. Out-of-range requests are rejected.
    pub fn from(params: (Option<u64>, u64)) -> (r: Option<Dice>)
        ensures
            ({
                let d = Dice {
                    count: match params.0 {
                        Some(c) => c,
                        None => 1,
                    },
                    magnitude: params.1,
                };
                r == if d.valid_spec() {
                    Some(d)
                } else {
                    None::<Dice>
                }
            }),
    {
        let (count, mag) = params;
        let dice = Dice {
            count: match count {
                Some(c) => c,
                None => 1,
            },
            magnitude: mag,
        };
        if dice.valid() {
            Some(dice)
        } else {
            None
        }
    }

    /// The expression's canonical text, as in `2d6`.
    pub fn to_string(&self) -> (r: String)
        ensures
            r@ == dec_string(self.count as int) + "d"@ + dec_string(self.magnitude as int),
    {
        let mut r = crate::text::u64_to_string(self.count);
        r.append("d");
        let m = crate::text::u64_to_string(self.magnitude);
        r.append(m.as_str());
        r
    }

    /// Executable test for [`Dice::valid_spec`].
    pub fn valid(&self) -> (r: bool)
        ensures
            r == self.valid_spec(),
    {
        self.count > 0 && self.magnitude > 0 && self.count < 100
    }

    /// Roll the dice: one uniform draw in `[1, magnitude]` per die. A
    /// zero-sided die cannot be drawn from, and the largest magnitude has
    /// no room for the draw's upper bound.
    pub fn roll(&self, rng: &mut rand::XorShiftRng) -> (rolls: Vec<u64>)
        requires
            self.magnitude >= 1,
            self.magnitude < u64::MAX,
        ensures
            rolls@.len() == self.count,
            forall|i: int| 0 <= i < rolls@.len() ==> 1 <= #[trigger] rolls@[i] <= self.magnitude,
    {
        let mut rolls: Vec<u64> = Vec::new();
        let mut i: u64 = 0;
        while i < self.count
            invariant
                i <= self.count,
                rolls@.len() == i,
                self.magnitude >= 1,
                forall|j: int| 0 <= j < rolls@.len() ==> 1 <= #[trigger] rolls@[j] <= self.magnitude,
            decreases self.count - i,
        {
            let v = rand_below(rng, self.magnitude);
            rolls.push(1 + v);
            i += 1;
        }
        rolls
    }
}

/// Parse a dice expression, per [`dice_of`].
pub fn parse_dice(text: &str) -> (r: Option<Dice>)
    ensures
        r == dice_of(text@),
{
    let s = text;
    let n = s.unicode_len();
    let p0 = skip_ws(s, 0);
    let p1 = skip_digits(s, p0);
    let count: Option<u64>;
    let p2: usize;
    if p1 > p0 {
        match parse_run(s, p0, p1) {
            Some(v) => {
                count = Some(v);
            },
            None => {
                return None;
            },
        }
        p2 = skip_ws(s, p1);
    } else {
        count = None;
        p2 = p0;
    }
    if p2 < n {
        let c = s.get_char(p2);
        if c == 'd' || c == 'D' {
            let p3 = skip_ws(s, p2 + 1);
            let p4 = skip_digits(s, p3);
            if p4 > p3 {
                match parse_run(s, p3, p4) {
                    Some(mag) => {
                        return Dice::from((count, mag));
                    },
                    None => {
                        return None;
                    },
                }
            }
            return None;
        }
        return None;
    }
    None
}

} // verus!
