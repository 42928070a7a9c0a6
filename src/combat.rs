use vstd::prelude::*;
use crate::pmf::{
    add_zero_mass, add_zero_weight, best_of_two, conv_many, convolve_many, denom_product, die_dist,
    die_pmf, len_sum, lemma_denom_product_prefix, max_dist, merge, scale, scale_dist, shift,
    shift_dist, sum_dist, views, Dist, Pmf,
};

verus! {

/// The damage dice that an attack can roll.
#[derive(Debug, Clone, Copy, PartialEq, Eq, Structural)]
pub enum Die {
    D4,
    D6,
    D8,
    D10,
    D20,
}

impl Die {
    pub open spec fn spec_sides(self) -> int {
        match self {
            Die::D4 => 4,
            Die::D6 => 6,
            Die::D8 => 8,
            Die::D10 => 10,
            Die::D20 => 20,
        }
    }

    /// The number of faces of the die.
    pub fn sides(self) -> (r: u32)
        ensures
            r == self.spec_sides(),
    {
        match self {
            Die::D4 => 4,
            Die::D6 => 6,
            Die::D8 => 8,
            Die::D10 => 10,
            Die::D20 => 20,
        }
    }
}

/// Whether a d20 showing `face` hits with attack bonus `ab` against armor
/// class `ac`: a natural 20 always hits, a natural 1 always misses, and any
/// other face hits when `face + ab` reaches `ac`.
pub open spec fn face_hits(ab: int, ac: int, face: int) -> bool {
    face == 20 || (face != 1 && face + ab >= ac)
}

/// How many of the faces `1..=n` of a d20 hit.
pub open spec fn faces_hitting(ab: int, ac: int, n: int) -> int
    decreases n,
{
    if n <= 0 {
        0
    } else {
        faces_hitting(ab, ac, n - 1) + if face_hits(ab, ac, n) {
            1int
        } else {
            0int
        }
    }
}

proof fn lemma_faces_hitting_below_twenty(ab: int, ac: int, n: int)
    requires
        0 <= n <= 19,
    ensures
        faces_hitting(ab, ac, n) == if n < 2 {
            0
        } else if n + 1 - (if ac - ab < 2 {
            2
        } else {
            ac - ab
        }) < 0 {
            0
        } else {
            n + 1 - (if ac - ab < 2 {
                2
            } else {
                ac - ab
            })
        },
    decreases n,
{
    if n > 0 {
        lemma_faces_hitting_below_twenty(ab, ac, n - 1);
    }
}

/// The number of d20 faces, out of 20, on which an attack with bonus `ab`
/// hits armor class `ac`; the hit chance is this number over 20.
pub fn hit_chance(ab: i32, ac: i32) -> (r: u32)
    ensures
        r == faces_hitting(ab as int, ac as int, 20),
        1 <= r <= 19,
{
    let diff: i64 = ac as i64 - ab as i64;
    let needed: i64 = if diff < 2 {
        2
    } else if diff > 20 {
        20
    } else {
        diff
    };
    proof {
        lemma_faces_hitting_below_twenty(ab as int, ac as int, 19);
    }
    (21 - needed) as u32
}


/// One attack: the d20 bonus, the flat damage added on a hit, and how many
/// of each die are rolled on a hit, one entry per die in the order
/// d4, d6, d8, d10, d20.
#[derive(Debug, Clone, Copy)]
pub struct Attack {
    pub ab: i32,
    pub flat: u8,
    pub dice: [(Die, u8); 5],
}

/// The attack routine of one turn.
#[derive(Debug, Clone)]
pub struct Build {
    pub attacks: Vec<Attack>,
    pub savage: bool,
    pub crit_enabled: bool,
}

impl Attack {
    /// One entry per die type, in the canonical order.
    pub open spec fn wf(self) -> bool {
        &&& self.dice@[0].0 == Die::D4
        &&& self.dice@[1].0 == Die::D6
        &&& self.dice@[2].0 == Die::D8
        &&& self.dice@[3].0 == Die::D10
        &&& self.dice@[4].0 == Die::D20
    }
}

impl Default for Attack {
    /// A +10 attack dealing 2d4 + 1d8 + 4.
    fn default() -> (r: Attack)
        ensures
            r.ab == 10,
            r.flat == 4,
            r.dice@ == seq![(Die::D4, 2u8), (Die::D6, 0u8), (Die::D8, 1u8), (Die::D10, 0u8), (Die::D20, 0u8)],
            r.wf(),
    {
        let r = Attack {
            ab: 10,
            flat: 4,
            dice: [(Die::D4, 2), (Die::D6, 0), (Die::D8, 1), (Die::D10, 0), (Die::D20, 0)],
        };
        proof {
            assert(r.dice@ =~= seq![(Die::D4, 2u8), (Die::D6, 0u8), (Die::D8, 1u8), (Die::D10, 0u8), (Die::D20, 0u8)]);
        }
        r
    }
}

impl Build {
    /// Whether `self` and `other` hold the same attacks and switches.
    pub open spec fn same_as(self, other: Build) -> bool {
        &&& self.attacks@ == other.attacks@
        &&& self.savage == other.savage
        &&& self.crit_enabled == other.crit_enabled
    }

    /// An independent copy, to hand to a worker.
    pub fn snapshot(&self) -> (r: Build)
        ensures
            r.same_as(*self),
    {
        let mut attacks: Vec<Attack> = Vec::new();
        let mut i: usize = 0;
        while i < self.attacks.len()
            invariant
                i <= self.attacks.len(),
                attacks@ == self.attacks@.take(i as int),
            decreases self.attacks.len() - i,
        {
            attacks.push(self.attacks[i]);
            i += 1;
            proof {
                assert(attacks@ =~= self.attacks@.take(i as int));
            }
        }
        proof {
            assert(attacks@ =~= self.attacks@);
        }
        Build { attacks, savage: self.savage, crit_enabled: self.crit_enabled }
    }
}

impl Default for Build {
    /// One default attack, crits on, no savage attacker.
    fn default() -> (r: Build)
        ensures
            r.attacks@.len() == 1,
            r.attacks@[0].ab == 10,
            r.attacks@[0].flat == 4,
            r.attacks@[0].dice@ == seq![(Die::D4, 2u8), (Die::D6, 0u8), (Die::D8, 1u8), (Die::D10, 0u8), (Die::D20, 0u8)],
            r.attacks@[0].wf(),
            !r.savage,
            r.crit_enabled,
    {
        let mut attacks: Vec<Attack> = Vec::new();
        attacks.push(Attack::default());
        Build { attacks, savage: false, crit_enabled: true }
    }
}

/// `n` copies of a fair die with `sides` faces.
pub open spec fn copies(sides: int, n: int) -> Seq<Dist> {
    Seq::new(n as nat, |i: int| die_dist(sides))
}

/// The dice rolled for `dice`, each count multiplied by `mult`.
pub open spec fn pool(dice: Seq<(Die, u8)>, mult: int) -> Seq<Dist>
    decreases dice.len(),
{
    if dice.len() == 0 {
        Seq::empty()
    } else {
        pool(dice.drop_last(), mult) + copies(dice.last().0.spec_sides(), mult * dice.last().1)
    }
}

/// Damage on a hit (`mult == 1`) or a critical hit (`mult == 2`): the dice,
/// plus the flat bonus once, and the better of two rolls when `savage`.
pub open spec fn hit_dist(attack: Attack, mult: int, savage: bool) -> Dist {
    let plain = shift_dist(conv_many(pool(attack.dice@, mult)), attack.flat as int);
    if savage {
        max_dist(plain)
    } else {
        plain
    }
}

pub open spec fn crit_faces(crit_enabled: bool) -> int {
    if crit_enabled {
        1
    } else {
        0
    }
}

/// The damage of one attack roll against `ac`: a miss deals nothing, a
/// critical hit (a natural 20, when crits are on) doubles the dice, and any
/// other hit deals the normal damage. The denominator of a critical hit is
/// the square of that of a hit (`lemma_crit_denom`), so both parts are put
/// over twenty times the former.
pub open spec fn attack_dist(attack: Attack, ac: int, crit_enabled: bool, savage: bool) -> Dist {
    let base = hit_dist(attack, 1, savage);
    let crit = hit_dist(attack, 2, savage);
    let h = faces_hitting(attack.ab as int, ac, 20);
    let c = crit_faces(crit_enabled);
    add_zero_mass(
        sum_dist(scale_dist(base, (h - c) * base.d, 20 * base.d), scale_dist(crit, c, 20)),
        (20 - h) * crit.d,
    )
}

/// The common denominator of `attack_dist`.
pub open spec fn attack_denom(attack: Attack, savage: bool) -> int {
    hit_dist(attack, 2, savage).d * 20
}

proof fn lemma_denom_product_concat(a: Seq<Dist>, b: Seq<Dist>)
    ensures
        denom_product(a + b) == denom_product(a) * denom_product(b),
    decreases b.len(),
{
    if b.len() == 0 {
        assert(a + b =~= a);
    } else {
        lemma_denom_product_concat(a, b.drop_last());
        assert((a + b).drop_last() =~= a + b.drop_last());
        assert((a + b).last() == b.last());
        let p = denom_product(a);
        let q = denom_product(b.drop_last());
        let r = b.last().d;
        assert(p * q * r == p * (q * r)) by (nonlinear_arith);
    }
}

/// Doubling every count squares the denominator of the pool.
pub proof fn lemma_crit_denom(dice: Seq<(Die, u8)>)
    ensures
        denom_product(pool(dice, 2)) == denom_product(pool(dice, 1)) * denom_product(pool(dice, 1)),
    decreases dice.len(),
{
    if dice.len() == 0 {
    } else {
        let dl = dice.drop_last();
        lemma_crit_denom(dl);
        let sides = dice.last().0.spec_sides();
        let n = dice.last().1 as int;
        let one = copies(sides, n);
        assert(copies(sides, 1 * n) =~= one);
        assert(copies(sides, 2 * n) =~= one + one);
        lemma_denom_product_concat(one, one);
        lemma_denom_product_concat(pool(dl, 1), one);
        lemma_denom_product_concat(pool(dl, 2), one + one);
        let p = denom_product(pool(dl, 1));
        let q = denom_product(one);
        assert(p * p * (q * q) == (p * q) * (p * q)) by (nonlinear_arith);
    }
}

proof fn lemma_pool_denoms(dice: Seq<(Die, u8)>, mult: int)
    requires
        mult >= 0,
    ensures
        forall|t: int| 0 <= t < pool(dice, mult).len() ==> #[trigger] pool(dice, mult)[t].d >= 4,
        forall|t: int| 0 <= t < pool(dice, mult).len() ==> #[trigger] pool(dice, mult)[t].len() <= 21,
        forall|t: int| 0 <= t < pool(dice, mult).len() ==> (#[trigger] pool(dice, mult)[t]).is_proper(),
    decreases dice.len(),
{
    if dice.len() > 0 {
        let pre = pool(dice.drop_last(), mult);
        lemma_pool_denoms(dice.drop_last(), mult);
        let sides = dice.last().0.spec_sides();
        crate::pmf::lemma_die_proper(sides);
        let all = pool(dice, mult);
        assert forall|t: int| 0 <= t < all.len() implies all[t] == if t < pre.len() {
            pre[t]
        } else {
            die_dist(sides)
        } by {}
    }
}

proof fn lemma_len_sum_bound(s: Seq<Dist>)
    requires
        forall|t: int| 0 <= t < s.len() ==> #[trigger] s[t].len() <= 21,
    ensures
        len_sum(s) <= 21 * s.len(),
    decreases s.len(),
{
    if s.len() > 0 {
        lemma_len_sum_bound(s.drop_last());
    }
}

/// One fair die for each die rolled by `dice`, each count times `mult`.
fn dice_pmfs(dice: &[(Die, u8); 5], mult: u8) -> (r: Vec<Pmf>)
    requires
        1 <= mult <= 2,
    ensures
        views(r@) == pool(dice@, mult as int),
        r.len() <= 5 * 255 * 2,
{
    let mut r: Vec<Pmf> = Vec::new();
    let mut e: usize = 0;
    while e < 5
        invariant
            1 <= mult <= 2,
            e <= 5,
            views(r@) == pool(dice@.take(e as int), mult as int),
            r.len() <= e * 255 * 2,
        decreases 5 - e,
    {
        let (die, count) = dice[e];
        proof {
            assert((count as u32) * (mult as u32) <= 510) by (nonlinear_arith)
                requires count <= 255, mult <= 2;
        }
        let n: u32 = count as u32 * mult as u32;
        let mut c: u32 = 0;
        let ghost pre = views(r@);
        while c < n
            invariant
                1 <= mult <= 2,
                e < 5,
                (die, count) == dice@[e as int],
                n == count * mult,
                n <= 510,
                c <= n,
                views(r@) == pre + copies(die.spec_sides(), c as int),
                r.len() == pre.len() + c,
                pre.len() <= e * 255 * 2,
            decreases n - c,
        {
            let p = die_pmf(die);
            let ghost before = views(r@);
            r.push(p);
            proof {
                assert(views(r@) =~= before.push(p@));
                assert(copies(die.spec_sides(), c as int + 1) =~= copies(die.spec_sides(), c as int).push(
                    die_dist(die.spec_sides()),
                ));
                assert(views(r@) =~= pre + copies(die.spec_sides(), c as int + 1));
            }
            c += 1;
        }
        proof {
            let t = dice@.take(e as int + 1);
            assert(t.drop_last() =~= dice@.take(e as int));
            assert(t.last() == dice@[e as int]);
        }
        e += 1;
    }
    proof {
        assert(dice@.take(5) =~= dice@);
    }
    r
}

/// The product of the denominators of `pmfs`, if it fits in `u128`.
pub(crate) fn checked_denom_product(pmfs: &Vec<Pmf>) -> (r: Option<u128>)
    requires
        forall|t: int| 0 <= t < pmfs.len() ==> (#[trigger] pmfs@[t])@.d >= 1,
    ensures
        match r {
            Some(p) => p == denom_product(views(pmfs@)),
            None => denom_product(views(pmfs@)) > u128::MAX,
        },
{
    let ghost vs = views(pmfs@);
    let mut acc: u128 = 1;
    let mut i: usize = 0;
    proof {
        assert(vs.take(0) =~= Seq::<Dist>::empty());
        assert forall|t: int| 0 <= t < vs.len() implies #[trigger] vs[t].d >= 1 by {
            assert(pmfs@[t]@.d >= 1);
        }
    }
    while i < pmfs.len()
        invariant
            vs == views(pmfs@),
            forall|t: int| 0 <= t < vs.len() ==> #[trigger] vs[t].d >= 1,
            i <= pmfs.len(),
            acc == denom_product(vs.take(i as int)),
        decreases pmfs.len() - i,
    {
        let ghost next = vs.take(i as int + 1);
        proof {
            assert(next.drop_last() =~= vs.take(i as int));
            assert(next.last() == vs[i as int]);
        }
        match acc.checked_mul(pmfs[i].denom) {
            Some(p) => {
                acc = p;
            },
            None => {
                proof {
                    lemma_denom_product_prefix(vs, i as int + 1);
                }
                return None;
            },
        }
        i += 1;
    }
    proof {
        assert(vs.take(pmfs.len() as int) =~= vs);
    }
    Some(acc)
}

/// The product `a * b`, if it fits in `u128`.
fn checked_product(a: u128, b: u128) -> (r: Option<u128>)
    ensures
        match r {
            Some(p) => p == a * b,
            None => a * b > u128::MAX,
        },
{
    a.checked_mul(b)
}

/// The distribution of the damage of one hit (`mult == 1`) or critical hit
/// (`mult == 2`), given the pool of dice and its denominator.
fn hit_pmf(attack: &Attack, pmfs: &Vec<Pmf>, mult: u8, savage: bool, plain_denom: u128) -> (r: Pmf)
    requires
        1 <= mult <= 2,
        views(pmfs@) == pool(attack.dice@, mult as int),
        pmfs.len() <= 5 * 255 * 2,
        plain_denom == denom_product(views(pmfs@)),
        savage ==> plain_denom * plain_denom <= u128::MAX,
    ensures
        r@ == hit_dist(*attack, mult as int, savage),
        r@.is_proper(),
{
    let ghost vs = views(pmfs@);
    proof {
        lemma_pool_denoms(attack.dice@, mult as int);
        lemma_len_sum_bound(vs);
        assert forall|t: int| 0 <= t < pmfs.len() implies (#[trigger] pmfs@[t])@.is_proper() by {
            assert(vs[t] == pmfs@[t]@);
        }
    }
    let dice = convolve_many(pmfs);
    proof {
        crate::pmf::lemma_conv_many_denom(vs);
        assert(dice@.len() <= 1 + len_sum(vs)) by {
            lemma_conv_many_len(vs);
        }
    }
    let plain = shift(&dice, attack.flat as u32);
    if savage {
        best_of_two(&plain)
    } else {
        plain
    }
}

proof fn lemma_conv_many_len(s: Seq<Dist>)
    ensures
        conv_many(s).len() <= 1 + len_sum(s),
    decreases s.len(),
{
    if s.len() > 0 {
        lemma_conv_many_len(s.drop_last());
    }
}

proof fn lemma_mul_ge(x: int, y: int)
    requires
        x >= 1,
        y >= 1,
    ensures
        x * y >= x,
        x * y >= y,
{
    assert(x * y >= x && x * y >= y) by (nonlinear_arith)
        requires x >= 1, y >= 1;
}

proof fn lemma_hit_denom(attack: Attack, mult: int, savage: bool)
    requires
        1 <= mult <= 2,
    ensures
        denom_product(pool(attack.dice@, mult)) >= 1,
        hit_dist(attack, mult, savage).d == if savage {
            denom_product(pool(attack.dice@, mult)) * denom_product(pool(attack.dice@, mult))
        } else {
            denom_product(pool(attack.dice@, mult))
        },
{
    let vs = pool(attack.dice@, mult);
    lemma_pool_denoms(attack.dice@, mult);
    lemma_denom_product_prefix(vs, vs.len() as int);
    assert(vs.take(vs.len() as int) =~= vs);
    crate::pmf::lemma_conv_many_denom(vs);
}

/// The damage distribution of one attack roll against armor class `ac`;
/// `None` exactly when its common denominator does not fit in `u128`.
pub fn attack_pmf(attack: &Attack, ac: u8, crit_enabled: bool, savage: bool) -> (r: Option<Pmf>)
    ensures
        r.is_some() <==> attack_denom(*attack, savage) <= u128::MAX,
        r matches Some(p) ==> p@ == attack_dist(*attack, ac as int, crit_enabled, savage),
        r matches Some(p) ==> p@.is_proper(),
        r matches Some(p) ==> p@.d == attack_denom(*attack, savage),
{
    let base_pool = dice_pmfs(&attack.dice, 1);
    let crit_pool = dice_pmfs(&attack.dice, 2);
    let ghost bd = hit_dist(*attack, 1, savage).d;
    let ghost cd = hit_dist(*attack, 2, savage).d;
    let ghost b1s = denom_product(views(base_pool@));
    let ghost c1s = denom_product(views(crit_pool@));
    proof {
        lemma_pool_denoms(attack.dice@, 1);
        lemma_hit_denom(*attack, 1, savage);
        lemma_hit_denom(*attack, 2, savage);
        lemma_crit_denom(attack.dice@);
        assert forall|t: int| 0 <= t < base_pool.len() implies (#[trigger] base_pool@[t])@.d >= 1 by {
            assert(views(base_pool@)[t] == base_pool@[t]@);
        }
        lemma_mul_ge(b1s, b1s);
        lemma_mul_ge(c1s, c1s);
        assert(c1s == b1s * b1s);
        assert(cd == bd * bd) by (nonlinear_arith)
            requires
                c1s == b1s * b1s, savage ==> bd == b1s * b1s && cd == c1s * c1s, !savage ==> bd == b1s
                    && cd == c1s;
        assert(cd >= c1s && c1s >= b1s && cd >= 1 && bd >= 1);
        lemma_mul_ge(cd, 20);
    }
    let b1 = match checked_denom_product(&base_pool) {
        Some(p) => p,
        None => {
            return None;
        },
    };
    let c1 = match checked_product(b1, b1) {
        Some(p) => p,
        None => {
            return None;
        },
    };
    let db = if savage {
        c1
    } else {
        b1
    };
    let dc = match checked_product(db, db) {
        Some(p) => p,
        None => {
            return None;
        },
    };
    let denom = match checked_product(dc, 20) {
        Some(p) => p,
        None => {
            return None;
        },
    };
    let base = hit_pmf(attack, &base_pool, 1, savage, b1);
    let crit = hit_pmf(attack, &crit_pool, 2, savage, c1);
    let h = hit_chance(attack.ab, ac as i32);
    let c: u32 = if crit_enabled {
        1
    } else {
        0
    };
    let ghost hh = h as int;
    let ghost cc = c as int;
    proof {
        assert(base@.d == db && crit@.d == dc);
        assert(base@.total() == db && crit@.total() == dc);
        assert((hh - cc) * db <= 20 * db && 20 * db <= denom && (20 - hh) * dc <= denom && db * (20 * db) == dc
            * 20 && db * ((hh - cc) * db) <= db * (20 * db) && dc * cc <= dc * 20) by (nonlinear_arith)
            requires
                0 <= cc <= 1, 1 <= hh <= 19, db >= 1, dc == db * db, denom == dc * 20;
    }
    let hit = scale(&base, ((h - c) as u128) * db, 20 * db);
    let critp = scale(&crit, c as u128, 20);
    proof {
        let t1 = hit@.total();
        let t2 = critp@.total();
        assert(t1 == db * ((hh - cc) * db) && t2 == dc * cc);
        assert(t1 + t2 + (20 - hh) * dc == dc * 20 && t2 >= 0 && (20 - hh) * dc >= 0) by (nonlinear_arith)
            requires
                t1 == db * ((hh - cc) * db), t2 == dc * cc, dc == db * db, 0 <= cc, db >= 1, hh <= 20;
        if base@.len() == 0 {
            assert(base@.total() == 0);
        }
    }
    let mut mixed = merge(&hit, &critp);
    add_zero_weight(&mut mixed, ((20 - h) as u128) * dc);
    Some(mixed)
}

/// Every attack has a positive common denominator.
pub proof fn lemma_attack_denom_pos(attack: Attack, ac: int, crit_enabled: bool, savage: bool)
    ensures
        attack_denom(attack, savage) >= 1,
        attack_dist(attack, ac, crit_enabled, savage).d == attack_denom(attack, savage),
{
    lemma_crit_denom(attack.dice@);
    lemma_hit_denom(attack, 1, savage);
    lemma_hit_denom(attack, 2, savage);
    let b1 = denom_product(pool(attack.dice@, 1));
    let bd = hit_dist(attack, 1, savage).d;
    let cdd = hit_dist(attack, 2, savage).d;
    assert(cdd == bd * bd) by (nonlinear_arith)
        requires
            denom_product(pool(attack.dice@, 2)) == b1 * b1,
            savage ==> bd == b1 * b1 && cdd == denom_product(pool(attack.dice@, 2)) * denom_product(
                pool(attack.dice@, 2),
            ),
            !savage ==> bd == b1 && cdd == denom_product(pool(attack.dice@, 2));
    assert(bd * (20 * bd) == cdd * 20) by (nonlinear_arith)
        requires cdd == bd * bd;
    lemma_hit_denom(attack, 2, savage);
    let c = denom_product(pool(attack.dice@, 2));
    lemma_mul_ge(c, c);
    let cd = hit_dist(attack, 2, savage).d;
    lemma_mul_ge(cd, 20);
}
} // verus!
