use vstd::prelude::*;

use std::collections::HashMap;

use crate::frames::{colour_key, Rgb};

verus! {

broadcast use vstd::std_specs::hash::group_hash_axioms;

/// Distinct pixels have distinct keys.
pub proof fn lemma_colour_key_injective(c: Rgb, d: Rgb)
    requires
        colour_key(c) == colour_key(d),
    ensures
        c == d,
{
    let kc = (c.r as int) * 65536 + (c.g as int) * 256 + (c.b as int);
    let kd = (d.r as int) * 65536 + (d.g as int) * 256 + (d.b as int);
    assert(kc == colour_key(c) as int && kd == colour_key(d) as int);
    vstd::arithmetic::div_mod::lemma_fundamental_div_mod_converse(kc, 256, (c.r as int) * 256 + (c.g as int), c.b as int);
    vstd::arithmetic::div_mod::lemma_fundamental_div_mod_converse(kd, 256, (d.r as int) * 256 + (d.g as int), d.b as int);
    vstd::arithmetic::div_mod::lemma_fundamental_div_mod_converse((c.r as int) * 256 + (c.g as int), 256, c.r as int, c.g as int);
    vstd::arithmetic::div_mod::lemma_fundamental_div_mod_converse((d.r as int) * 256 + (d.g as int), 256, d.r as int, d.g as int);
    assert(((c.r as int) * 256 + (c.g as int)) * 256 + (c.b as int) == (c.r as int) * 65536 + (c.g as int)
        * 256 + (c.b as int)) by (nonlinear_arith);
    assert(((d.r as int) * 256 + (d.g as int)) * 256 + (d.b as int) == (d.r as int) * 65536 + (d.g as int)
        * 256 + (d.b as int)) by (nonlinear_arith);
}

/// The pixels of `to` at the positions below `m` where `from` holds `c`, in
/// order.
pub open spec fn replacements(from: Seq<Rgb>, to: Seq<Rgb>, c: Rgb, m: nat) -> Seq<Rgb>
    decreases m,
{
    if m == 0 {
        Seq::empty()
    } else if from[m - 1] == c {
        replacements(from, to, c, (m - 1) as nat).push(to[m - 1])
    } else {
        replacements(from, to, c, (m - 1) as nat)
    }
}

/// A pixel that does not occur among the first `m` of `from` has no
/// replacements there.
pub proof fn lemma_replacements_absent(from: Seq<Rgb>, to: Seq<Rgb>, c: Rgb, m: nat)
    requires
        m <= from.len(),
        !from.take(m as int).contains(c),
    ensures
        replacements(from, to, c, m) == Seq::<Rgb>::empty(),
    decreases m,
{
    if m > 0 {
        assert(from.take(m as int)[m - 1] == from[m - 1]);
        assert forall|x: Rgb| from.take(m - 1).contains(x) implies from.take(m as int).contains(x) by {
            let j = choose|j: int| 0 <= j < m - 1 && #[trigger] from.take(m - 1)[j] == x;
            assert(from.take(m as int)[j] == x);
        }
        lemma_replacements_absent(from, to, c, (m - 1) as nat);
    }
}

/// The table built from the first `m` pixel pairs: each pixel of `from` maps
/// to the pixels of `to` at its positions, with the cursor at the start.
pub open spec fn table_of(from: Seq<Rgb>, to: Seq<Rgb>, m: nat) -> Map<Rgb, (nat, Seq<Rgb>)> {
    Map::new(|c: Rgb| from.take(m as int).contains(c), |c: Rgb| (0nat, replacements(from, to, c, m)))
}

/// The replacements of one pixel and how many of them were handed out.
struct ColourMapElem {
    colour: Rgb,
    idx: usize,
    pixels: Vec<Rgb>,
}

impl ColourMapElem {
    fn new(colour: Rgb) -> (r: Self)
        ensures
            r.colour == colour,
            r.idx == 0,
            r.pixels@.len() == 0,
    {
        ColourMapElem { colour, idx: 0, pixels: vec![] }
    }
}

/// For each pixel of one image, the pixels at the same positions in another
/// image, handed out one after the other.
pub struct ColourMap {
    index: HashMap<u32, usize>,
    elems: Vec<ColourMapElem>,
}

impl View for ColourMap {
    /// For each pixel, the cursor and its replacements.
    type V = Map<Rgb, (nat, Seq<Rgb>)>;

    closed spec fn view(&self) -> Map<Rgb, (nat, Seq<Rgb>)> {
        Map::new(
            |c: Rgb| self.index@.contains_key(colour_key(c)),
            |c: Rgb|
                {
                    let e = self.elems@[self.index@[colour_key(c)] as int];
                    (e.idx as nat, e.pixels@)
                },
        )
    }
}

impl ColourMap {
    /// Each key leads to the entry of the pixel with that key.
    pub closed spec fn wf(&self) -> bool {
        forall|k: u32|
            #[trigger] self.index@.contains_key(k) ==> {
                &&& self.index@[k] < self.elems@.len()
                &&& colour_key(self.elems@[self.index@[k] as int].colour) == k
            }
    }

    /// Takes entry `s` out for a change, leaving an empty entry in its place
    /// until the changed one is set back.
    fn take(&mut self, s: usize) -> (e: ColourMapElem)
        requires
            s < old(self).elems@.len(),
        ensures
            e == old(self).elems@[s as int],
            final(self).index@ == old(self).index@,
            final(self).elems@.len() == old(self).elems@.len(),
            forall|t: int| 0 <= t < old(self).elems@.len() && t != s ==> final(self).elems@[t] == old(self).elems@[t],
    {
        let placeholder = ColourMapElem::new(Rgb { r: 0, g: 0, b: 0 });
        self.elems.push(placeholder);
        self.elems.swap_remove(s)
    }

    /// Builds the table from the pixel pairs of two images, position by
    /// position, as far as the shorter one goes.
    pub fn load_from_image(from: &Vec<Rgb>, to: &Vec<Rgb>) -> (r: ColourMap)
        ensures
            r.wf(),
            r@ == table_of(
                from@,
                to@,
                if from@.len() <= to@.len() { from@.len() } else { to@.len() },
            ),
    {
        let m = if from.len() <= to.len() { from.len() } else { to.len() };
        let mut map = ColourMap { index: HashMap::new(), elems: Vec::new() };
        let mut i: usize = 0;
        assert(map@ =~= table_of(from@, to@, 0));
        while i < m
            invariant
                i <= m,
                m <= from@.len(),
                m <= to@.len(),
                map.wf(),
                map@ == table_of(from@, to@, i as nat),
            decreases m - i,
        {
            let c = from[i];
            let k = c.key();
            let ghost before = map@;
            let ghost old_map = map;
            proof {
                vstd::seq_lib::lemma_seq_contains_after_push(from@.take(i as int), c, c);
                assert(from@.take(i + 1) =~= from@.take(i as int).push(c));
                assert(replacements(from@, to@, c, (i + 1) as nat) == replacements(from@, to@, c, i as nat).push(
                    to@[i as int],
                ));
            }
            match map.index.get(&k) {
                Some(s) => {
                    let s = *s;
                    proof {
                        assert(before.contains_key(c));
                        assert(before[c] == (0nat, replacements(from@, to@, c, i as nat)));
                    }
                    let mut e = map.take(s);
                    e.pixels.push(to[i]);
                    map.elems.set(s, e);
                    proof {
                        assert forall|kk: u32| #[trigger] map.index@.contains_key(kk) implies {
                            &&& map.index@[kk] < map.elems@.len()
                            &&& colour_key(map.elems@[map.index@[kk] as int].colour) == kk
                        } by {
                            assert(old_map.index@.contains_key(kk));
                        }
                        assert(map@.contains_key(c));
                        assert(map@[c] == (0nat, replacements(from@, to@, c, i as nat).push(to@[i as int])));
                        assert forall|d: Rgb| d != c implies (#[trigger] map@.contains_key(d) == before.contains_key(d)
                            && (before.contains_key(d) ==> map@[d] == before[d])) by {
                            if before.contains_key(d) {
                                assert(colour_key(d) != k) by {
                                    if colour_key(d) == k {
                                        lemma_colour_key_injective(c, d);
                                    }
                                }
                                assert(old_map.index@.contains_key(colour_key(d)));
                                assert(old_map.index@[colour_key(d)] != s);
                            }
                        }
                    }
                },
                None => {
                    proof {
                        assert(!before.contains_key(c));
                        lemma_replacements_absent(from@, to@, c, i as nat);
                    }
                    let s = map.elems.len();
                    let mut e = ColourMapElem::new(c);
                    e.pixels.push(to[i]);
                    map.elems.push(e);
                    map.index.insert(k, s);
                    proof {
                        assert forall|kk: u32| #[trigger] map.index@.contains_key(kk) implies {
                            &&& map.index@[kk] < map.elems@.len()
                            &&& colour_key(map.elems@[map.index@[kk] as int].colour) == kk
                        } by {
                            if kk != k {
                                assert(old_map.index@.contains_key(kk));
                            }
                        }
                        assert(map@.contains_key(c));
                        assert(map@[c].1 =~= replacements(from@, to@, c, i as nat).push(to@[i as int]));
                        assert forall|d: Rgb| d != c implies (#[trigger] map@.contains_key(d) == before.contains_key(d)
                            && (before.contains_key(d) ==> map@[d] == before[d])) by {
                            assert(colour_key(d) != k) by {
                                if colour_key(d) == k {
                                    lemma_colour_key_injective(c, d);
                                }
                            }
                            if before.contains_key(d) {
                                assert(old_map.index@.contains_key(colour_key(d)));
                            }
                        }
                    }
                },
            }
            proof {
                let next = table_of(from@, to@, (i + 1) as nat);
                assert forall|d: Rgb| d != c implies #[trigger] next.contains_key(d) == before.contains_key(d)
                    && (before.contains_key(d) ==> next[d] == before[d]) by {
                    vstd::seq_lib::lemma_seq_contains_after_push(from@.take(i as int), c, d);
                    assert(replacements(from@, to@, d, (i + 1) as nat) == replacements(from@, to@, d, i as nat));
                }
                assert(map@ =~= next);
            }
            i = i + 1;
        }
        map
    }

    /// Whether `pix` has a replacement left.
    pub fn has_replacement(&self, pix: Rgb) -> (r: bool)
        requires
            self.wf(),
        ensures
            r == (self@.contains_key(pix) && self@[pix].0 < self@[pix].1.len()),
    {
        match self.index.get(&pix.key()) {
            Some(s) => {
                let e = &self.elems[*s];
                e.idx < e.pixels.len()
            },
            None => false,
        }
    }

    /// Hands out the next replacement of `pix` and moves its cursor on.
    pub fn fetch_replacement(&mut self, pix: Rgb) -> (r: Rgb)
        requires
            old(self).wf(),
            old(self)@.contains_key(pix),
            old(self)@[pix].0 < old(self)@[pix].1.len(),
        ensures
            final(self).wf(),
            r == old(self)@[pix].1[old(self)@[pix].0 as int],
            final(self)@ == old(self)@.insert(pix, (old(self)@[pix].0 + 1, old(self)@[pix].1)),
    {
        let ghost old_map = *self;
        let k = pix.key();
        let s = *self.index.get(&k).unwrap();
        let mut e = self.take(s);
        let len = e.pixels.len();
        let res = e.pixels[e.idx];
        e.idx = e.idx + 1;
        self.elems.set(s, e);
        proof {
            assert forall|d: Rgb| #[trigger] self@.contains_key(d) && d != pix implies self@[d] == old_map@[d] by {
                if colour_key(d) == k {
                    lemma_colour_key_injective(pix, d);
                }
                assert(old_map.index@.contains_key(colour_key(d)));
            }
            assert(self@ =~= old_map@.insert(pix, (old_map@[pix].0 + 1, old_map@[pix].1)));
        }
        res
    }

    /// Moves every cursor back to the start.
    pub fn reset(&mut self)
        requires
            old(self).wf(),
        ensures
            final(self).wf(),
            final(self)@ == Map::new(|c: Rgb| old(self)@.contains_key(c), |c: Rgb| (0nat, old(self)@[c].1)),
    {
        let ghost old_map = *self;
        let n = self.elems.len();
        let mut s: usize = 0;
        while s < n
            invariant
                s <= n,
                n == self.elems@.len(),
                self.index@ == old_map.index@,
                old_map.elems@.len() == n,
                forall|t: int|
                    0 <= t < n ==> {
                        &&& (#[trigger] self.elems@[t]).colour == old_map.elems@[t].colour
                        &&& self.elems@[t].pixels == old_map.elems@[t].pixels
                        &&& self.elems@[t].idx == if t < s { 0 } else { old_map.elems@[t].idx }
                    },
            decreases n - s,
        {
            let mut e = self.take(s);
            e.idx = 0;
            self.elems.set(s, e);
            s = s + 1;
        }
        proof {
            assert forall|k: u32| #[trigger] self.index@.contains_key(k) implies {
                &&& self.index@[k] < self.elems@.len()
                &&& colour_key(self.elems@[self.index@[k] as int].colour) == k
            } by {
                assert(old_map.index@.contains_key(k));
            }
            assert(self@ =~= Map::new(|c: Rgb| old_map@.contains_key(c), |c: Rgb| (0nat, old_map@[c].1)));
        }
    }
}

} // verus!
