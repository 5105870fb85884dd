//! Comparing fractions without rounding.

use vstd::prelude::*;

verus! {

proof fn lemma_fractions(
    sa: int,
    ca: int,
    qa: int,
    ra: int,
    sb: int,
    cb: int,
    qb: int,
    rb: int,
)
    requires
        ca > 0,
        cb > 0,
        sa == qa * ca + ra,
        0 <= ra < ca,
        sb == qb * cb + rb,
        0 <= rb < cb,
    ensures
        qa < qb ==> sa * cb < sb * ca,
        qa > qb ==> sa * cb >= sb * ca,
        qa == qb ==> (sa * cb < sb * ca <==> ra * cb < rb * ca),
{
    if qa < qb {
        assert(sa * cb < sb * ca) by (nonlinear_arith)
            requires
                ca > 0,
                cb > 0,
                sa == qa * ca + ra,
                ra < ca,
                sb == qb * cb + rb,
                0 <= rb,
                qa + 1 <= qb,
        {
            assert(sa < (qa + 1) * ca);
            assert((qa + 1) * ca <= qb * ca);
            assert(sa * cb < (qb * ca) * cb);
            assert(qb * cb <= sb);
            assert((qb * cb) * ca <= sb * ca);
            assert((qb * ca) * cb == (qb * cb) * ca);
        }
    } else if qa > qb {
        assert(sa * cb >= sb * ca) by (nonlinear_arith)
            requires
                ca > 0,
                cb > 0,
                sa == qa * ca + ra,
                0 <= ra,
                sb == qb * cb + rb,
                rb < cb,
                qb + 1 <= qa,
        {
            assert(sb < (qb + 1) * cb);
            assert((qb + 1) * cb <= qa * cb);
            assert(sb * ca <= (qa * cb) * ca);
            assert(qa * ca <= sa);
            assert((qa * ca) * cb <= sa * cb);
            assert((qa * ca) * cb == (qa * cb) * ca);
        }
    } else {
        assert(sa * cb - sb * ca == ra * cb - rb * ca) by (nonlinear_arith)
            requires
                sa == qa * ca + ra,
                sb == qb * cb + rb,
                qa == qb,
        ;
    }
}

/// Whether `na / da` is less than `nb / db`.
pub fn less(na: u128, da: u64, nb: u128, db: u64) -> (r: bool)
    requires
        da > 0,
        db > 0,
    ensures
        r == (na * db < nb * da),
{
    let ca: u128 = da as u128;
    let cb: u128 = db as u128;
    let (qa, ra): (u128, u128) = (na / ca, na % ca);
    let (qb, rb): (u128, u128) = (nb / cb, nb % cb);
    proof {
        vstd::arithmetic::div_mod::lemma_fundamental_div_mod(na as int, ca as int);
        vstd::arithmetic::div_mod::lemma_fundamental_div_mod(nb as int, cb as int);
        assert(na == qa * ca + ra) by (nonlinear_arith)
            requires
                na == ca * qa + ra,
        ;
        assert(nb == qb * cb + rb) by (nonlinear_arith)
            requires
                nb == cb * qb + rb,
        ;
        lemma_fractions(
            na as int,
            ca as int,
            qa as int,
            ra as int,
            nb as int,
            cb as int,
            qb as int,
            rb as int,
        );
        assert(ra * cb <= 0xffff_ffff_ffff_ffff * 0xffff_ffff_ffff_ffff) by (nonlinear_arith)
            requires
                0 <= ra <= 0xffff_ffff_ffff_ffff,
                0 <= cb <= 0xffff_ffff_ffff_ffff,
        ;
        assert(rb * ca <= 0xffff_ffff_ffff_ffff * 0xffff_ffff_ffff_ffff) by (nonlinear_arith)
            requires
                0 <= rb <= 0xffff_ffff_ffff_ffff,
                0 <= ca <= 0xffff_ffff_ffff_ffff,
        ;
    }
    qa < qb || (qa == qb && ra * cb < rb * ca)
}

} // verus!
