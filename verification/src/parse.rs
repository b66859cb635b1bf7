//! The terrain point-file format: one sample per line, three
//! whitespace-separated decimal numbers `x y height`. Coordinates must lie
//! strictly between 0 and 100 (in cells), heights strictly between -50 and
//! 50 (in world units); a violation aborts the whole load and names the
//! 1-based line, the field position and the offending token.

use vstd::prelude::*;

use crate::fixed::COORD_SCALE;
use crate::fixed::MAX_TERRAIN;
use crate::terrain::HeightMap;
use crate::terrain::InvalidPointError;
use crate::terrain::SamplePoint;

verus! {

/// ASCII bytes that separate fields within a line.
pub open spec fn is_space(b: u8) -> bool {
    b == 32 || b == 9 || b == 13 || b == 12 || b == 11
}

/// ASCII decimal digit.
pub open spec fn is_digit(b: u8) -> bool {
    48 <= b <= 57
}

/// Index of the first newline in `s`, or `-1` if there is none.
pub open spec fn first_nl(s: Seq<u8>) -> int
    decreases s.len(),
{
    if s.len() == 0 {
        -1
    } else if s[0] == 10 {
        0
    } else {
        let r = first_nl(s.skip(1));
        if r < 0 {
            -1
        } else {
            r + 1
        }
    }
}

/// `s` split at newlines, the way a line reader sees it: a final newline
/// closes the last line rather than opening an empty one.
pub open spec fn lines_of(s: Seq<u8>) -> Seq<Seq<u8>>
    decreases s.len(),
{
    if s.len() == 0 {
        Seq::empty()
    } else {
        let i = first_nl(s);
        if i < 0 || i >= s.len() {
            seq![s]
        } else {
            seq![s.take(i)] + lines_of(s.skip(i + 1))
        }
    }
}

/// Length of the field starting at the head of `line`.
pub open spec fn token_len(line: Seq<u8>) -> int
    decreases line.len(),
{
    if line.len() == 0 || is_space(line[0]) {
        0
    } else {
        1 + token_len(line.skip(1))
    }
}

/// The fields of one line: maximal runs of non-space bytes.
pub open spec fn tokens_of(line: Seq<u8>) -> Seq<Seq<u8>>
    decreases line.len(),
{
    if line.len() == 0 {
        Seq::empty()
    } else if is_space(line[0]) {
        tokens_of(line.skip(1))
    } else {
        let t = token_len(line);
        if t < 1 || t > line.len() {
            seq![line]
        } else {
            seq![line.take(t)] + tokens_of(line.skip(t))
        }
    }
}

/// `token_len` stays within the line and is positive at a field head.
pub proof fn lemma_token_len_range(line: Seq<u8>)
    ensures
        0 <= token_len(line) <= line.len(),
        line.len() > 0 && !is_space(line[0]) ==> token_len(line) >= 1,
    decreases line.len(),
{
    if line.len() > 0 && !is_space(line[0]) {
        lemma_token_len_range(line.skip(1));
    }
}

/// Are all bytes of `s` digits?
pub open spec fn all_digits(s: Seq<u8>) -> bool {
    forall|m: int| 0 <= m < s.len() ==> is_digit(#[trigger] s[m])
}

/// The integer a digit run denotes.
pub open spec fn int_of_digits(s: Seq<u8>) -> int
    decreases s.len(),
{
    if s.len() == 0 {
        0
    } else {
        int_of_digits(s.drop_last()) * 10 + (s.last() - 48)
    }
}

/// Powers of ten.
pub open spec fn pow10(k: nat) -> int
    decreases k,
{
    if k == 0 {
        1
    } else {
        10 * pow10((k - 1) as nat)
    }
}

/// The value of a fraction-digit run, scaled by `10^k`: digits beyond the
/// `k`-th are truncated away.
pub open spec fn frac_scaled(s: Seq<u8>, k: nat) -> int
    decreases k,
{
    if k == 0 {
        0
    } else if s.len() == 0 {
        0
    } else {
        (s[0] - 48) * pow10((k - 1) as nat) + frac_scaled(s.skip(1), (k - 1) as nat)
    }
}

/// The digits of a token after its optional sign.
pub open spec fn unsigned_part(tok: Seq<u8>) -> Seq<u8> {
    if tok.len() > 0 && (tok[0] == 43 || tok[0] == 45) {
        tok.skip(1)
    } else {
        tok
    }
}

/// Is the token negative?
pub open spec fn is_negative(tok: Seq<u8>) -> bool {
    tok.len() > 0 && tok[0] == 45
}

/// Index of the first dot in `u`, or `u.len()` if there is none.
pub open spec fn dot_index(u: Seq<u8>) -> int
    decreases u.len(),
{
    if u.len() == 0 {
        0
    } else if u[0] == 46 {
        0
    } else {
        1 + dot_index(u.skip(1))
    }
}

/// Does `u` have the shape `digits [ '.' digits ]` with at least one digit
/// or digit-place?
pub open spec fn valid_unsigned(u: Seq<u8>) -> bool {
    let d = dot_index(u);
    &&& all_digits(u.take(d))
    &&& d == u.len() || all_digits(u.skip(d + 1))
    &&& u.len() >= 1
    &&& d >= 1 || u.len() >= 2
}

/// A well-formed decimal token: an optional sign, then digits with at most
/// one dot.
pub open spec fn valid_number(tok: Seq<u8>) -> bool {
    valid_unsigned(unsigned_part(tok))
}

/// The value of a token at `10^k` fixed-point steps per unit, fraction
/// digits beyond `k` truncated.
pub open spec fn number_value(tok: Seq<u8>, k: nat) -> int {
    let u = unsigned_part(tok);
    let d = dot_index(u);
    let fstart = if d == u.len() {
        d
    } else {
        d + 1
    };
    let mag = int_of_digits(u.take(d)) * pow10(k) + frac_scaled(u.skip(fstart), k);
    if is_negative(tok) {
        -mag
    } else {
        mag
    }
}

/// Is a parsed coordinate accepted? Strictly between 0 and 100 cells.
pub open spec fn coord_ok(v: int) -> bool {
    0 < v < 100 * COORD_SCALE
}

/// Is a parsed height accepted? Strictly between -50 and 50 units.
pub open spec fn height_ok(v: int) -> bool {
    -MAX_TERRAIN < v < MAX_TERRAIN
}

/// Is field `p` of the token list a number its position accepts?
pub open spec fn field_ok(ts: Seq<Seq<u8>>, p: int) -> bool {
    &&& valid_number(ts[p])
    &&& p < 2 ==> coord_ok(number_value(ts[p], 3))
    &&& p == 2 ==> height_ok(number_value(ts[p], 6))
}

/// The first failing field among the (up to three) available ones, or 3 if
/// all available ones pass.
pub open spec fn first_bad_field(ts: Seq<Seq<u8>>) -> int {
    if ts.len() >= 1 && !field_ok(ts, 0) {
        0
    } else if ts.len() >= 2 && !field_ok(ts, 1) {
        1
    } else if ts.len() >= 3 && !field_ok(ts, 2) {
        2
    } else {
        3
    }
}

/// Does one line parse into an accepted sample?
pub open spec fn line_ok(line: Seq<u8>) -> bool {
    let ts = tokens_of(line);
    &&& ts.len() == 3
    &&& field_ok(ts, 0)
    &&& field_ok(ts, 1)
    &&& field_ok(ts, 2)
}

/// The sample an accepted line denotes.
pub open spec fn line_value(line: Seq<u8>) -> SamplePoint {
    let ts = tokens_of(line);
    SamplePoint {
        x: number_value(ts[0], 3) as i64,
        y: number_value(ts[1], 3) as i64,
        h: number_value(ts[2], 6) as i64,
    }
}

/// Does the reported error match the first defect of `line` (1-based line
/// number `ln`)? Fields are validated left to right as the original reader
/// does, so a bad field is reported before a missing or an excess one.
pub open spec fn line_error_matches(line: Seq<u8>, ln: int, e: InvalidPointError) -> bool {
    let ts = tokens_of(line);
    let p = first_bad_field(ts);
    if p < 3 {
        if !valid_number(ts[p]) {
            e matches InvalidPointError::BadNumber { line, pos, token } && line == ln && pos == p
                + 1 && token@ == ts[p]
        } else if p < 2 {
            e matches InvalidPointError::CoordOutOfRange { line, pos, token } && line == ln && pos
                == p + 1 && token@ == ts[p]
        } else {
            e matches InvalidPointError::HeightOutOfRange { line, pos, token } && line == ln && pos
                == p + 1 && token@ == ts[p]
        }
    } else if ts.len() < 3 {
        e == InvalidPointError::NotEnoughValues { line: ln as usize }
    } else {
        e == InvalidPointError::TooManyValues { line: ln as usize }
    }
}

/// `first_nl` is the unique index with nothing but non-newlines before it.
proof fn lemma_first_nl_at(s: Seq<u8>, i: int)
    requires
        0 <= i <= s.len(),
        forall|m: int| 0 <= m < i ==> #[trigger] s[m] != 10,
        i < s.len() ==> s[i] == 10,
    ensures
        i < s.len() ==> first_nl(s) == i,
        i == s.len() ==> first_nl(s) == -1,
    decreases s.len(),
{
    if s.len() > 0 && s[0] != 10 {
        assert(forall|m: int| 0 <= m < i - 1 ==> #[trigger] s.skip(1)[m] == s[m + 1]);
        lemma_first_nl_at(s.skip(1), i - 1);
    }
}

/// `token_len` is the unique run length of non-space bytes at the head.
proof fn lemma_token_len_at(s: Seq<u8>, t: int)
    requires
        0 <= t <= s.len(),
        forall|m: int| 0 <= m < t ==> !is_space(#[trigger] s[m]),
        t < s.len() ==> is_space(s[t]),
    ensures
        token_len(s) == t,
    decreases s.len(),
{
    if s.len() > 0 && !is_space(s[0]) {
        assert(t >= 1);
        assert(forall|m: int| 0 <= m < t - 1 ==> #[trigger] s.skip(1)[m] == s[m + 1]);
        lemma_token_len_at(s.skip(1), t - 1);
    }
}

/// `dot_index` is the unique index of the first dot.
proof fn lemma_dot_index_at(u: Seq<u8>, d: int)
    requires
        0 <= d <= u.len(),
        forall|m: int| 0 <= m < d ==> #[trigger] u[m] != 46,
        d < u.len() ==> u[d] == 46,
    ensures
        dot_index(u) == d,
    decreases u.len(),
{
    if u.len() > 0 && u[0] != 46 {
        assert(d >= 1);
        assert(forall|m: int| 0 <= m < d - 1 ==> #[trigger] u.skip(1)[m] == u[m + 1]);
        lemma_dot_index_at(u.skip(1), d - 1);
    }
}

/// A digit run denotes a nonnegative integer.
proof fn lemma_int_of_digits_nonneg(s: Seq<u8>)
    requires
        all_digits(s),
    ensures
        int_of_digits(s) >= 0,
    decreases s.len(),
{
    if s.len() > 0 {
        assert(forall|m: int| 0 <= m < s.len() - 1 ==> s.drop_last()[m] == s[m]);
        lemma_int_of_digits_nonneg(s.drop_last());
        assert(is_digit(s[s.len() - 1]));
    }
}

/// Extending a digit run cannot shrink its value.
proof fn lemma_int_of_digits_grows(s: Seq<u8>, n: int)
    requires
        all_digits(s),
        0 <= n <= s.len(),
    ensures
        int_of_digits(s) >= int_of_digits(s.take(n)),
    decreases s.len() - n,
{
    if n < s.len() {
        assert(forall|m: int| 0 <= m < n + 1 ==> s.take(n + 1)[m] == s[m]);
        assert(s.take(n + 1).drop_last() =~= s.take(n));
        assert(all_digits(s.take(n + 1)));
        assert(all_digits(s.take(n)));
        lemma_int_of_digits_nonneg(s.take(n));
        assert(is_digit(s.take(n + 1).last()));
        assert(int_of_digits(s.take(n + 1)) >= int_of_digits(s.take(n)));
        lemma_int_of_digits_grows(s, n + 1);
    } else {
        assert(s.take(n) =~= s);
    }
}

/// Positive powers of ten.
proof fn lemma_pow10_pos(k: nat)
    ensures
        pow10(k) >= 1,
    decreases k,
{
    if k > 0 {
        lemma_pow10_pos((k - 1) as nat);
    }
}

/// Parse one decimal token at `10^k` steps per unit. `None` exactly for a
/// malformed token; an overlong magnitude comes back saturated on the same
/// side of the accepted ranges as its true value.
#[verifier::rlimit(100)]
fn parse_number(tok: &Vec<u8>, pow10k: i64, kg: Ghost<nat>) -> (r: Option<i64>)
    requires
        pow10k == pow10(kg@),
        1 <= kg@ <= 6,
        1000 <= pow10k <= 1_000_000,
    ensures
        (r is Some) <==> valid_number(tok@),
        r matches Some(v) ==> {
            let true_v = number_value(tok@, kg@);
            &&& (v == true_v || (v >= 2_000_000_000 && true_v >= 2_000_000_000) || (v
                <= -2_000_000_000 && true_v <= -2_000_000_000))
            &&& -4_000_000_000_000 <= v <= 4_000_000_000_000
        },
{
    let ghost u = unsigned_part(tok@);
    let mut pos: usize = 0;
    let mut neg: bool = false;
    if tok.len() > 0 && (tok[0] == 43 || tok[0] == 45) {
        neg = tok[0] == 45;
        pos = 1;
    }
    proof {
        assert(u =~= tok@.skip(pos as int));
        assert(neg == is_negative(tok@));
    }
    let ghost ubase: int = pos as int;
    // integer part: digits until a dot or the end
    let mut ip: i64 = 0;
    let mut sat: bool = false;
    let mut i: usize = pos;
    while i < tok.len()
        invariant
            ubase <= i <= tok@.len(),
            ubase == pos,
            u == tok@.skip(ubase),
            0 <= ubase <= 1,
            forall|m: int| 0 <= m < i - ubase ==> is_digit(#[trigger] u[m]),
            !sat ==> ip == int_of_digits(u.take(i - ubase)) && 0 <= ip < 2_000_000,
            sat ==> int_of_digits(u.take(i - ubase)) >= 2_000_000 && ip == 2_000_000,
        ensures
            ubase <= i <= tok@.len(),
            i == tok@.len() || !is_digit(tok@[i as int]),
            forall|m: int| 0 <= m < i - ubase ==> is_digit(#[trigger] u[m]),
            !sat ==> ip == int_of_digits(u.take(i - ubase)) && 0 <= ip < 2_000_000,
            sat ==> int_of_digits(u.take(i - ubase)) >= 2_000_000 && ip == 2_000_000,
        decreases tok@.len() - i,
    {
        let b0: u8 = tok[i];
        if !(48 <= b0 && b0 <= 57) {
            break ;
        }
        let d: i64 = (b0 - 48) as i64;
        proof {
            assert(u[i - ubase] == tok@[i as int]);
            assert(u.take(i - ubase + 1).drop_last() =~= u.take(i - ubase));
            assert(u.take(i - ubase + 1).last() == u[i - ubase]);
            assert(all_digits(u.take(i - ubase)));
            lemma_int_of_digits_nonneg(u.take(i - ubase));
            assert(int_of_digits(u.take(i - ubase + 1)) == int_of_digits(u.take(i - ubase)) * 10
                + (u[i - ubase] - 48));
        }
        if !sat {
            let next: i64 = ip * 10 + d;
            if next >= 2_000_000 {
                sat = true;
                ip = 2_000_000;
            } else {
                ip = next;
            }
        } else {
            proof {
                assert(int_of_digits(u.take(i - ubase)) * 10 >= 2_000_000 * 10)
                    by (nonlinear_arith)
                    requires
                        int_of_digits(u.take(i - ubase)) >= 2_000_000,
                ;
            }
        }
        i += 1;
    }
    let ghost d_spec: int = i - ubase;
    // the integer part must end at a dot or at the end of the token
    if i < tok.len() && tok[i] != 46 {
        proof {
            assert(u[d_spec] == tok@[i as int]);
            assert(!is_digit(u[d_spec]) && u[d_spec] != 46);
            if valid_unsigned(u) {
                let dd = dot_index(u);
                lemma_dot_index_range(u);
                if dd <= d_spec {
                    lemma_dot_index_at_here(u, dd);
                    assert(dd < d_spec ==> is_digit(u[dd]));
                    assert(false);
                } else {
                    assert(all_digits(u.take(dd)));
                    assert(u.take(dd)[d_spec] == u[d_spec]);
                    assert(is_digit(u[d_spec]));
                    assert(false);
                }
            }
        }
        return None;
    }
    let has_dot: bool = i < tok.len();
    proof {
        if has_dot {
            assert(u[d_spec] == tok@[i as int]);
            assert(u[d_spec] == 46);
        }
        lemma_dot_index_at(u, d_spec);
        assert(dot_index(u) == d_spec);
    }
    // fraction part
    let mut fr: i64 = 0;
    let ghost fseq: Seq<u8> = if has_dot {
        u.skip(d_spec + 1)
    } else {
        u.skip(d_spec)
    };
    let mut flen: usize = 0;
    if has_dot {
        let fstart: usize = i + 1;
        let mut w: i64 = pow10k / 10;
        let mut f: usize = fstart;
        proof {
            lemma_pow10_div10(kg@);
            assert(fseq.skip(0) =~= fseq);
            lemma_pow10_pos(kg@);
        }
        while f < tok.len()
            invariant
                fstart <= f <= tok@.len(),
                fstart == ubase + d_spec + 1,
                fstart <= tok@.len() + 1,
                u == tok@.skip(ubase),
                0 <= ubase <= 1,
                0 <= d_spec,
                fseq == u.skip(d_spec + 1),
                fseq.len() == tok@.len() - fstart,
                1 <= kg@ <= 6,
                pow10k == pow10(kg@),
                forall|m: int| 0 <= m < f - fstart ==> is_digit(#[trigger] fseq[m]),
                f - fstart <= kg@ ==> w == pow10((kg@ - (f - fstart)) as nat) / 10 && fr
                    + frac_scaled(fseq.skip(f - fstart), (kg@ - (f - fstart)) as nat)
                    == frac_scaled(fseq, kg@),
                f - fstart > kg@ ==> w == 0 && fr == frac_scaled(fseq, kg@),
                0 <= fr,
                w > 0 ==> fr <= pow10(kg@) - 10 * w,
                w == 0 ==> fr < pow10(kg@),
                0 <= w <= 100_000,
            ensures
                fstart <= f <= tok@.len(),
                f == tok@.len() || !is_digit(tok@[f as int]),
                forall|m: int| 0 <= m < f - fstart ==> is_digit(#[trigger] fseq[m]),
                f - fstart <= kg@ ==> fr + frac_scaled(
                    fseq.skip(f - fstart),
                    (kg@ - (f - fstart)) as nat,
                ) == frac_scaled(fseq, kg@),
                f - fstart > kg@ ==> fr == frac_scaled(fseq, kg@),
                0 <= fr < pow10(kg@),
            decreases tok@.len() - f,
        {
            let b0: u8 = tok[f];
            if !(48 <= b0 && b0 <= 57) {
                break ;
            }
            let d: i64 = (b0 - 48) as i64;
            proof {
                assert(fseq[f - fstart] == tok@[f as int]);
            }
            let ghost n: int = f - fstart;
            if w > 0 {
                proof {
                    assert(n <= kg@);
                    let rem: nat = (kg@ - n) as nat;
                    assert(rem >= 1) by {
                        if rem == 0 {
                            lemma_pow10_div10(rem);
                        }
                    }
                    lemma_pow10_div10(rem);
                    assert(w == pow10((rem - 1) as nat));
                    lemma_pow10_pos((rem - 1) as nat);
                    assert(0 <= d * w && d * w <= 9 * w) by (nonlinear_arith)
                        requires
                            0 <= d <= 9,
                            w >= 1,
                    ;
                    assert(fseq.skip(n).len() > 0);
                    assert(fseq.skip(n)[0] == fseq[n]);
                    assert(fseq.skip(n).skip(1) =~= fseq.skip(n + 1));
                    assert(frac_scaled(fseq.skip(n), rem) == (fseq[n] - 48) * pow10(
                        (rem - 1) as nat,
                    ) + frac_scaled(fseq.skip(n + 1), (rem - 1) as nat));
                }
                fr = fr + d * w;
                let wnext: i64 = w / 10;
                proof {
                    let rem: nat = (kg@ - n) as nat;
                    lemma_pow10_div10((rem - 1) as nat);
                }
                w = wnext;
            } else {
                proof {
                    // w reaches zero exactly when all k kept digits are in
                    if n <= kg@ {
                        let rem: nat = (kg@ - n) as nat;
                        lemma_pow10_div10(rem);
                        if rem >= 1 {
                            lemma_pow10_pos((rem - 1) as nat);
                        }
                        assert(rem == 0);
                        assert(frac_scaled(fseq.skip(n), 0int as nat) == 0);
                        assert(fr == frac_scaled(fseq, kg@));
                    }
                }
            }
            f += 1;
        }
        flen = f - fstart;
        // the fraction must reach the end of the token
        if f < tok.len() {
            proof {
                assert(fseq[f - fstart] == tok@[f as int]);
                assert(!is_digit(fseq[f - fstart]));
                if valid_unsigned(u) {
                    assert(all_digits(u.skip(d_spec + 1)));
                    assert(false);
                }
            }
            return None;
        }
        proof {
            if flen <= kg@ {
                assert(fseq.skip(flen as int) =~= Seq::<u8>::empty());
                lemma_frac_scaled_empty((kg@ - flen) as nat);
            }
            assert(fr == frac_scaled(fseq, kg@));
            assert(fseq.len() == flen);
            assert(all_digits(fseq));
        }
    } else {
        proof {
            assert(d_spec == u.len()) by {
                lemma_dot_index_range(u);
            }
            assert(fseq =~= Seq::<u8>::empty());
            lemma_frac_scaled_empty(kg@);
            assert(fr == frac_scaled(fseq, kg@));
            lemma_pow10_pos(kg@);
        }
    }
    // shape check: at least one digit or digit place
    if i == pos && (!has_dot || flen == 0) {
        proof {
            assert(d_spec == 0);
            if valid_unsigned(u) {
                assert(u.len() >= 1);
                assert(dot_index(u) == 0);
                if has_dot {
                    assert(u.len() >= 2);
                    assert(fseq.len() == u.len() - 1 >= 1);
                    assert(flen == 0);
                    assert(fseq.len() == tok@.len() - (i + 1));
                    assert(false);
                } else {
                    assert(u.len() == d_spec);
                    assert(false);
                }
            }
        }
        return None;
    }
    proof {
        assert(valid_unsigned(u)) by {
            assert(all_digits(u.take(d_spec)));
            if has_dot {
                assert(u.skip(d_spec + 1) == fseq);
                assert(all_digits(fseq));
            }
            assert(u.len() >= 1) by {
                if d_spec == 0 {
                    assert(has_dot && flen >= 1);
                    assert(fseq.len() >= 1);
                }
            }
            assert(d_spec >= 1 || u.len() >= 2) by {
                if d_spec == 0 {
                    assert(has_dot && flen >= 1);
                    assert(fseq.len() >= 1);
                    assert(u.len() == 1 + fseq.len());
                }
            }
        }
    }
    // assemble
    proof {
        assert(0 <= ip * pow10k <= 2_000_000_000_000) by (nonlinear_arith)
            requires
                0 <= ip <= 2_000_000,
                1000 <= pow10k <= 1_000_000,
        ;
    }
    let mag: i64 = ip * pow10k + fr;
    proof {
        assert(u.take(d_spec) =~= u.take(i - ubase));
        if !sat {
            assert(mag == number_value(tok@, kg@) || is_negative(tok@));
            assert(ip * pow10k == int_of_digits(u.take(d_spec)) * pow10(kg@));
        } else {
            lemma_int_of_digits_grows(u.take(d_spec), d_spec);
            assert(int_of_digits(u.take(d_spec)) * pow10(kg@) >= 2_000_000 * 1000)
                by (nonlinear_arith)
                requires
                    int_of_digits(u.take(d_spec)) >= 2_000_000,
                    pow10(kg@) >= 1000,
            ;
            assert(ip * pow10k >= 2_000_000_000) by (nonlinear_arith)
                requires
                    ip == 2_000_000,
                    pow10k >= 1000,
            ;
        }
    }
    let v: i64 = if neg {
        -mag
    } else {
        mag
    };
    Some(v)
}

/// `dot_index` stays within the token.
proof fn lemma_dot_index_range(u: Seq<u8>)
    ensures
        0 <= dot_index(u) <= u.len(),
    decreases u.len(),
{
    if u.len() > 0 && u[0] != 46 {
        lemma_dot_index_range(u.skip(1));
    }
}

/// The dot really sits at `dot_index` when it is inside the token.
proof fn lemma_dot_index_at_here(u: Seq<u8>, d: int)
    requires
        dot_index(u) == d,
        0 <= d < u.len(),
    ensures
        u[d] == 46,
        forall|m: int| 0 <= m < d ==> #[trigger] u[m] != 46,
    decreases u.len(),
{
    if u.len() > 0 && u[0] != 46 {
        lemma_dot_index_range(u.skip(1));
        assert(dot_index(u.skip(1)) == d - 1);
        lemma_dot_index_at_here(u.skip(1), d - 1);
        assert(u.skip(1)[d - 1] == u[d]);
        assert forall|m: int| 0 <= m < d implies #[trigger] u[m] != 46 by {
            if m > 0 {
                assert(u.skip(1)[m - 1] == u[m]);
            }
        }
    }
}

/// `pow10(k) / 10` steps down one power (and `pow10(0) / 10 == 0`).
proof fn lemma_pow10_div10(k: nat)
    ensures
        k >= 1 ==> pow10(k) / 10 == pow10((k - 1) as nat),
        k == 0 ==> pow10(k) / 10 == 0,
{
    if k >= 1 {
        vstd::arithmetic::div_mod::lemma_div_multiples_vanish(pow10((k - 1) as nat), 10);
    }
}

/// An empty fraction run contributes nothing at any scale.
proof fn lemma_frac_scaled_empty(k: nat)
    ensures
        frac_scaled(Seq::<u8>::empty(), k) == 0,
    decreases k,
{
    if k > 0 {
        lemma_frac_scaled_empty((k - 1) as nat);
    }
}

/// Parse one line (1-based number `ln`) into a sample, or the error of its
/// first defect, fields validated left to right.
#[verifier::rlimit(100)]
pub fn parse_line(line: &Vec<u8>, ln: usize) -> (r: Result<SamplePoint, InvalidPointError>)
    requires
        ln >= 1,
    ensures
        (r is Ok) <==> line_ok(line@),
        r matches Ok(p) ==> p == line_value(line@),
        r matches Err(e) ==> line_error_matches(line@, ln as int, e),
{
    let ghost ts = tokens_of(line@);
    let mut pos: usize = 0;
    let mut idx: usize = 0;
    let mut vx: i64 = 0;
    let mut vy: i64 = 0;
    let mut vh: i64 = 0;
    proof {
        assert(line@.skip(0) =~= line@);
    }
    while pos < line.len()
        invariant
            0 <= pos <= line@.len(),
            0 <= idx <= 3,
            ts == tokens_of(line@),
            tokens_of(line@.skip(pos as int)) == ts.skip(idx as int),
            idx <= ts.len(),
            ln >= 1,
            forall|q: int| 0 <= q < idx ==> field_ok(ts, q),
            idx >= 1 ==> vx == number_value(ts[0], 3) && coord_ok(vx as int),
            idx >= 2 ==> vy == number_value(ts[1], 3) && coord_ok(vy as int),
            idx >= 3 ==> vh == number_value(ts[2], 6) && height_ok(vh as int),
        decreases line@.len() - pos,
    {
        let b: u8 = line[pos];
        if b == 32 || b == 9 || b == 13 || b == 12 || b == 11 {
            proof {
                assert(line@.skip(pos as int)[0] == line@[pos as int]);
                assert(line@.skip(pos as int).skip(1) =~= line@.skip(pos + 1));
            }
            pos += 1;
        } else {
            let ghost suffix = line@.skip(pos as int);
            proof {
                assert(suffix[0] == line@[pos as int]);
                assert(!is_space(suffix[0]));
                lemma_token_len_range(suffix);
            }
            // the field runs to the next space or the end of the line
            let mut e: usize = pos;
            while e < line.len()
                invariant
                    pos <= e <= line@.len(),
                    forall|m: int| pos <= m < e ==> !is_space(#[trigger] line@[m]),
                ensures
                    pos <= e <= line@.len(),
                    forall|m: int| pos <= m < e ==> !is_space(#[trigger] line@[m]),
                    e == line@.len() || is_space(line@[e as int]),
                decreases line@.len() - e,
            {
                let c: u8 = line[e];
                if c == 32 || c == 9 || c == 13 || c == 12 || c == 11 {
                    break ;
                }
                e += 1;
            }
            proof {
                assert(e > pos) by {
                    assert(!is_space(line@[pos as int]));
                }
                assert forall|m: int| 0 <= m < e - pos implies !is_space(#[trigger] suffix[m]) by {
                    assert(suffix[m] == line@[pos + m]);
                }
                if e < line@.len() {
                    assert(suffix[e - pos] == line@[e as int]);
                }
                lemma_token_len_at(suffix, e - pos);
                assert(tokens_of(suffix) == seq![suffix.take(e - pos)] + tokens_of(
                    suffix.skip(e - pos),
                ));
                assert(ts.skip(idx as int).len() >= 1);
                assert(idx < ts.len());
                assert(ts[idx as int] == ts.skip(idx as int)[0]);
                assert(ts[idx as int] == suffix.take(e - pos));
                assert(suffix.skip(e - pos) =~= line@.skip(e as int));
                assert(tokens_of(line@.skip(e as int)) =~= ts.skip(idx + 1)) by {
                    assert(forall|w: int|
                        0 <= w < ts.skip(idx as int).len() - 1 ==> ts.skip(idx as int)[w + 1]
                            == #[trigger] tokens_of(suffix.skip(e - pos))[w]);
                    assert(forall|w: int|
                        0 <= w < ts.skip(idx + 1).len() ==> #[trigger] ts.skip(idx + 1)[w]
                            == ts.skip(idx as int)[w + 1]);
                }
            }
            if idx == 3 {
                proof {
                    assert(ts.len() >= 4);
                    assert(first_bad_field(ts) == 3);
                }
                return Err(InvalidPointError::TooManyValues { line: ln });
            }
            let mut tokv: Vec<u8> = Vec::new();
            let mut c: usize = pos;
            while c < e
                invariant
                    pos <= c <= e,
                    e <= line@.len(),
                    tokv@ == line@.subrange(pos as int, c as int),
                decreases e - c,
            {
                tokv.push(line[c]);
                proof {
                    assert(line@.subrange(pos as int, c + 1) =~= line@.subrange(
                        pos as int,
                        c as int,
                    ).push(line@[c as int]));
                }
                c += 1;
            }
            proof {
                assert(tokv@ =~= suffix.take(e - pos));
                assert(tokv@ == ts[idx as int]);
            }
            let scale: i64 = if idx < 2 {
                1000
            } else {
                1_000_000
            };
            let ghost kk: nat = if idx < 2 {
                3nat
            } else {
                6nat
            };
            proof {
                reveal_with_fuel(pow10, 8);
                assert(pow10(3nat) == 1000 && pow10(6nat) == 1_000_000);
            }
            let parsed = parse_number(&tokv, scale, Ghost(kk));
            match parsed {
                None => {
                    proof {
                        assert(!valid_number(ts[idx as int]));
                        assert(!field_ok(ts, idx as int));
                        assert(first_bad_field(ts) == idx);
                    }
                    return Err(
                        InvalidPointError::BadNumber { line: ln, pos: idx + 1, token: tokv },
                    );
                },
                Some(v) => {
                    if idx < 2 {
                        if !(0 < v && v < 100_000) {
                            proof {
                                assert(!coord_ok(number_value(ts[idx as int], 3)));
                                assert(!field_ok(ts, idx as int));
                                assert(first_bad_field(ts) == idx);
                            }
                            return Err(
                                InvalidPointError::CoordOutOfRange {
                                    line: ln,
                                    pos: idx + 1,
                                    token: tokv,
                                },
                            );
                        }
                        proof {
                            assert(v == number_value(ts[idx as int], 3));
                            assert(field_ok(ts, idx as int));
                        }
                        if idx == 0 {
                            vx = v;
                        } else {
                            vy = v;
                        }
                    } else {
                        if !(-MAX_TERRAIN < v && v < MAX_TERRAIN) {
                            proof {
                                assert(!height_ok(number_value(ts[idx as int], 6)));
                                assert(!field_ok(ts, idx as int));
                                assert(first_bad_field(ts) == idx);
                            }
                            return Err(
                                InvalidPointError::HeightOutOfRange {
                                    line: ln,
                                    pos: idx + 1,
                                    token: tokv,
                                },
                            );
                        }
                        proof {
                            assert(v == number_value(ts[idx as int], 6));
                            assert(field_ok(ts, idx as int));
                        }
                        vh = v;
                    }
                    pos = e;
                    idx += 1;
                },
            }
        }
    }
    proof {
        assert(line@.skip(line@.len() as int) =~= Seq::<u8>::empty());
        assert(ts.skip(idx as int).len() == 0);
        assert(ts.len() == idx);
    }
    if idx < 3 {
        proof {
            assert(first_bad_field(ts) == 3);
        }
        return Err(InvalidPointError::NotEnoughValues { line: ln });
    }
    proof {
        assert(line_ok(line@));
    }
    Ok(SamplePoint { x: vx, y: vy, h: vh })
}

/// The samples a whole point file denotes, line by line.
pub open spec fn points_of(data: Seq<u8>) -> Seq<SamplePoint> {
    Seq::new(lines_of(data).len(), |li: int| line_value(lines_of(data)[li]))
}

/// Parse a whole point file: all samples in file order, or the error of
/// the first offending line, which aborts the load.
#[verifier::rlimit(100)]
pub fn parse_points(data: &Vec<u8>) -> (r: Result<Vec<SamplePoint>, InvalidPointError>)
    ensures
        (r is Ok) <==> (forall|li: int|
            0 <= li < lines_of(data@).len() ==> line_ok(#[trigger] lines_of(data@)[li])),
        r matches Ok(pts) ==> pts@ == points_of(data@),
        r matches Err(e) ==> exists|li: int|
            0 <= li < lines_of(data@).len() && !line_ok(#[trigger] lines_of(data@)[li]) && (
            forall|lj: int| 0 <= lj < li ==> line_ok(#[trigger] lines_of(data@)[lj]))
                && line_error_matches(lines_of(data@)[li], li + 1, e),
{
    let ghost ls = lines_of(data@);
    let mut pos: usize = 0;
    let mut li: usize = 0;
    let mut pts: Vec<SamplePoint> = Vec::new();
    proof {
        assert(data@.skip(0) =~= data@);
    }
    while pos < data.len()
        invariant
            0 <= pos <= data@.len(),
            pts@.len() == li,
            ls == lines_of(data@),
            lines_of(data@.skip(pos as int)) == ls.skip(li as int),
            li <= ls.len(),
            li <= pos,
            forall|lj: int| 0 <= lj < li ==> line_ok(#[trigger] ls[lj]),
            forall|lj: int| 0 <= lj < li ==> #[trigger] pts@[lj] == line_value(ls[lj]),
        decreases data@.len() - pos,
    {
        let ghost suffix = data@.skip(pos as int);
        let mut e: usize = pos;
        while e < data.len()
            invariant
                pos <= e <= data@.len(),
                forall|m: int| pos <= m < e ==> #[trigger] data@[m] != 10,
            ensures
                pos <= e <= data@.len(),
                forall|m: int| pos <= m < e ==> #[trigger] data@[m] != 10,
                e == data@.len() || data@[e as int] == 10,
            decreases data@.len() - e,
        {
            if data[e] == 10 {
                break ;
            }
            e += 1;
        }
        proof {
            assert forall|m: int| 0 <= m < e - pos implies #[trigger] suffix[m] != 10 by {
                assert(suffix[m] == data@[pos + m]);
            }
            if e < data@.len() {
                assert(suffix[e - pos] == data@[e as int]);
                lemma_first_nl_at(suffix, e - pos);
            } else {
                lemma_first_nl_at(suffix, e - pos);
            }
            assert(suffix.len() > 0);
            assert(ls.skip(li as int).len() >= 1);
            assert(li < ls.len());
            assert(ls[li as int] == ls.skip(li as int)[0]);
        }
        let mut linev: Vec<u8> = Vec::new();
        let mut c: usize = pos;
        while c < e
            invariant
                pos <= c <= e,
                e <= data@.len(),
                linev@ == data@.subrange(pos as int, c as int),
            decreases e - c,
        {
            linev.push(data[c]);
            proof {
                assert(data@.subrange(pos as int, c + 1) =~= data@.subrange(
                    pos as int,
                    c as int,
                ).push(data@[c as int]));
            }
            c += 1;
        }
        proof {
            if e < data@.len() {
                assert(linev@ =~= suffix.take(e - pos));
            } else {
                assert(linev@ =~= suffix);
                assert(suffix.take(e - pos) =~= suffix);
            }
            assert(lines_of(suffix) == seq![suffix.take(e - pos)] + (if e < data@.len() {
                lines_of(suffix.skip(e - pos + 1))
            } else {
                Seq::<Seq<u8>>::empty()
            })) by {
                if e == data@.len() {
                    assert(first_nl(suffix) == -1);
                    assert(lines_of(suffix) =~= seq![suffix.take(e - pos)] + Seq::<
                        Seq<u8>,
                    >::empty());
                }
            }
            assert(linev@ == ls[li as int]);
        }
        let res = parse_line(&linev, li + 1);
        match res {
            Err(err) => {
                proof {
                    assert(!line_ok(ls[li as int]));
                    assert(line_error_matches(ls[li as int], li + 1, err));
                }
                return Err(err);
            },
            Ok(p) => {
                pts.push(p);
            },
        }
        let ghost rest: Seq<Seq<u8>> = if e < data@.len() {
            lines_of(data@.skip(e + 1))
        } else {
            Seq::<Seq<u8>>::empty()
        };
        proof {
            if e < data@.len() {
                assert(suffix.skip(e - pos + 1) =~= data@.skip(e + 1));
            }
            assert(ls.skip(li as int) == seq![linev@] + rest);
            assert((seq![linev@] + rest).skip(1) =~= rest);
            assert(ls.skip(li + 1) =~= ls.skip(li as int).skip(1));
            assert(ls.skip(li + 1) =~= rest);
        }
        if e < data.len() {
            pos = e + 1;
        } else {
            pos = e;
        }
        li += 1;
        proof {
            if e == data@.len() {
                assert(data@.skip(data@.len() as int) =~= Seq::<u8>::empty());
            }
            assert(lines_of(data@.skip(pos as int)) == ls.skip(li as int));
        }
    }
    proof {
        assert(data@.skip(data@.len() as int) =~= Seq::<u8>::empty());
        assert(ls.skip(li as int).len() == 0);
        assert(li == ls.len());
        assert(pts@ =~= points_of(data@));
    }
    Ok(pts)
}

/// Load a terrain height field from the bytes of a point file: parse every
/// line, then interpolate the accepted samples. Any malformed or
/// out-of-range sample aborts the load with its diagnosis; no partial
/// terrain is built.
pub fn load_height_map(data: &Vec<u8>) -> (r: Result<HeightMap, InvalidPointError>)
    ensures
        r matches Ok(hm) ==> hm.wf() && hm.models(points_of(data@)),
        (r is Ok) <==> ((forall|li: int|
            0 <= li < lines_of(data@).len() ==> line_ok(#[trigger] lines_of(data@)[li]))
            && points_of(data@).len() <= crate::terrain::MAX_POINTS && (forall|k: int|
            0 <= k < points_of(data@).len() ==> crate::terrain::valid_point(
                #[trigger] points_of(data@)[k],
            ))),
{
    match parse_points(data) {
        Err(e) => Err(e),
        Ok(pts) => HeightMap::new(&pts),
    }
}


} // verus!
