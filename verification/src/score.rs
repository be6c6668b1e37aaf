//! Exact cosine-similarity scores.
//!
//! A score is the triple (dot product, squared query norm, squared document
//! norm); the similarity value it stands for is `dot / sqrt(qnorm_sq *
//! dnorm_sq)`, or 0 when either norm is 0.  Two scores are compared exactly,
//! without square roots, by cross-multiplying: since the values are
//! non-negative, `a <= b` holds exactly when
//! `num(a)^2 * den(b) <= num(b)^2 * den(a)`.

use vstd::prelude::*;

use crate::vector::COUNT_CAP;

verus! {

/// An exact cosine-similarity score.
#[derive(Clone, Copy, Debug, PartialEq, Eq, Structural)]
pub struct Score {
    pub dot: u64,
    pub qnorm_sq: u64,
    pub dnorm_sq: u64,
}

/// Scores produced by the pipeline stay within these bounds, which keep the
/// cross-multiplied comparison inside `u128`.
pub open spec fn score_wf(s: Score) -> bool {
    &&& s.dot <= COUNT_CAP * COUNT_CAP
    &&& s.qnorm_sq <= COUNT_CAP * COUNT_CAP
    &&& s.dnorm_sq <= COUNT_CAP * COUNT_CAP
}

/// Numerator of the score value: 0 when either norm is 0.
pub open spec fn score_num(s: Score) -> int {
    if s.qnorm_sq == 0 || s.dnorm_sq == 0 {
        0
    } else {
        s.dot as int
    }
}

/// Denominator of the squared score value: 1 when either norm is 0.
pub open spec fn score_den(s: Score) -> int {
    if s.qnorm_sq == 0 || s.dnorm_sq == 0 {
        1
    } else {
        (s.qnorm_sq as int) * (s.dnorm_sq as int)
    }
}

/// The score value of `a` is at most that of `b`.
pub open spec fn score_le(a: Score, b: Score) -> bool {
    score_num(a) * score_num(a) * score_den(b) <= score_num(b) * score_num(b) * score_den(a)
}

/// The score value is strictly positive.
pub open spec fn score_pos(s: Score) -> bool {
    score_num(s) > 0
}

/// Every squared score denominator is at least 1.
pub proof fn lemma_score_den_pos(s: Score)
    ensures
        score_den(s) >= 1,
{
    if s.qnorm_sq != 0 && s.dnorm_sq != 0 {
        assert((s.qnorm_sq as int) * (s.dnorm_sq as int) >= 1) by (nonlinear_arith)
            requires
                s.qnorm_sq >= 1,
                s.dnorm_sq >= 1,
        ;
    }
}

/// `score_le` is total: any two scores compare one way or the other.
pub proof fn lemma_score_le_total(a: Score, b: Score)
    ensures
        score_le(a, b) || score_le(b, a),
{
}

/// `score_le` is transitive.
pub proof fn lemma_score_le_trans(a: Score, b: Score, c: Score)
    requires
        score_le(a, b),
        score_le(b, c),
    ensures
        score_le(a, c),
{
    let na = score_num(a);
    let nb = score_num(b);
    let nc = score_num(c);
    let da = score_den(a);
    let db = score_den(b);
    let dc = score_den(c);
    lemma_score_den_pos(a);
    lemma_score_den_pos(b);
    lemma_score_den_pos(c);
    assert(na * na * dc <= nc * nc * da) by (nonlinear_arith)
        requires
            na * na * db <= nb * nb * da,
            nb * nb * dc <= nc * nc * db,
            da >= 1,
            db >= 1,
            dc >= 1,
    ;
}

/// Exact comparison of two scores that share a query norm, as they do inside
/// one ranking pass.
pub fn score_le_exec(a: &Score, b: &Score) -> (r: bool)
    requires
        score_wf(*a),
        score_wf(*b),
        a.qnorm_sq == b.qnorm_sq,
    ensures
        r == score_le(*a, *b),
{
    if a.qnorm_sq == 0 {
        return true;
    }
    if a.dnorm_sq == 0 {
        proof {
            lemma_score_den_pos(*a);
            assert(score_num(*a) == 0);
            assert(score_num(*a) * score_num(*a) * score_den(*b) == 0) by (nonlinear_arith)
                requires
                    score_num(*a) == 0,
            ;
            assert(score_num(*b) * score_num(*b) * score_den(*a) >= 0) by (nonlinear_arith)
                requires
                    score_den(*a) >= 1,
            ;
        }
        return true;
    }
    if b.dnorm_sq == 0 {
        proof {
            assert(score_num(*b) == 0);
            if a.dot == 0 {
                assert(score_num(*a) == 0);
                assert(score_num(*a) * score_num(*a) * score_den(*b) == 0 && score_num(*b)
                    * score_num(*b) * score_den(*a) == 0) by (nonlinear_arith)
                    requires
                        score_num(*a) == 0,
                        score_num(*b) == 0,
                ;
            } else {
                assert(score_num(*a) * score_num(*a) * score_den(*b) > 0) by (nonlinear_arith)
                    requires
                        score_num(*a) > 0,
                        score_den(*b) >= 1,
                ;
            }
        }
        return a.dot == 0;
    }
    let na: u128 = a.dot as u128;
    let nb: u128 = b.dot as u128;
    proof {
        let cap2 = (COUNT_CAP as int) * (COUNT_CAP as int);
        assert(na * na <= cap2 * cap2 && nb * nb <= cap2 * cap2) by (nonlinear_arith)
            requires
                0 <= na <= cap2,
                0 <= nb <= cap2,
        ;
        assert((na * na) * (b.dnorm_sq as int) <= cap2 * cap2 * cap2 && (nb * nb) * (a.dnorm_sq
            as int) <= cap2 * cap2 * cap2) by (nonlinear_arith)
            requires
                0 <= na * na <= cap2 * cap2,
                0 <= nb * nb <= cap2 * cap2,
                0 <= a.dnorm_sq <= cap2,
                0 <= b.dnorm_sq <= cap2,
        ;
    }
    let lhs = (na * na) * (b.dnorm_sq as u128);
    let rhs = (nb * nb) * (a.dnorm_sq as u128);
    proof {
        let q = a.qnorm_sq as int;
        let dta = a.dnorm_sq as int;
        let dtb = b.dnorm_sq as int;
        let ia = na as int;
        let ib = nb as int;
        assert((ia * ia * dtb <= ib * ib * dta) == (ia * ia * (q * dtb) <= ib * ib * (q * dta)))
            by (nonlinear_arith)
            requires
                q >= 1,
                ia >= 0,
                ib >= 0,
                dta >= 0,
                dtb >= 0,
        ;
    }
    lhs <= rhs
}


/// Whether the score value is strictly positive, decided exactly.
pub fn score_positive(s: &Score) -> (r: bool)
    ensures
        r == score_pos(*s),
{
    s.qnorm_sq > 0 && s.dnorm_sq > 0 && s.dot > 0
}

} // verus!
