//! The canonical set of sites and their per-site display colors.

use vstd::prelude::*;

use crate::geom::all_ok;
use crate::geom::is_near;
use crate::geom::near;
use crate::geom::separated;
use crate::geom::Color;
use crate::geom::Site;
use crate::geom::MAX_COORD;
use crate::rng::random_color;
use crate::rng::random_site;

verus! {

/// An ordered sequence of sites, insertion order preserved, paired 1:1
/// with an ordered sequence of colors.
pub struct PointStore {
    pub sites: Vec<Site>,
    pub colors: Vec<Color>,
}

/// Every color of the sequence is within channel bounds.
pub open spec fn colors_ok(colors: Seq<Color>) -> bool {
    forall|i: int| 0 <= i < colors.len() ==> (#[trigger] colors[i]).ok()
}

/// Law: appending a site that is near no retained site keeps the retained
/// sites pairwise separated.
pub proof fn lemma_separated_push(sites: Seq<Site>, p: Site)
    requires
        separated(sites),
        forall|i: int| 0 <= i < sites.len() ==> !near(#[trigger] sites[i], p),
    ensures
        separated(sites.push(p)),
{
    let pushed = sites.push(p);
    assert forall|i: int, j: int|
        0 <= i < pushed.len() && 0 <= j < pushed.len() && i != j implies !near(
        pushed[i],
        pushed[j],
    ) by {
        if i < sites.len() && j < sites.len() {
            assert(!near(sites[i], sites[j]));
        } else if j == sites.len() && i < sites.len() {
            assert(!near(sites[i], p));
        } else {
            assert(!near(sites[j], p));
        }
    }
}

impl PointStore {
    /// Sites and colors are paired 1:1 and each element is within bounds.
    pub open spec fn wf(self) -> bool {
        &&& self.sites@.len() == self.colors@.len()
        &&& all_ok(self.sites@)
        &&& colors_ok(self.colors@)
    }

    /// A fresh, empty store.
    pub fn new() -> (s: PointStore)
        ensures
            s.wf(),
            s.sites@.len() == 0,
            s.colors@.len() == 0,
    {
        PointStore { sites: Vec::new(), colors: Vec::new() }
    }

    /// Some retained site lies within epsilon of `p` in both axes.
    pub fn contains_near(&self, p: Site) -> (r: bool)
        requires
            all_ok(self.sites@),
            p.ok(),
        ensures
            r == exists|i: int| 0 <= i < self.sites@.len() && near(self.sites@[i], p),
    {
        let n = self.sites.len();
        let mut t: usize = 0;
        while t < n
            invariant
                n == self.sites@.len(),
                0 <= t <= n,
                all_ok(self.sites@),
                p.ok(),
                forall|i: int| 0 <= i < t ==> !near(self.sites@[i], p),
            decreases n - t,
        {
            if is_near(self.sites[t], p) {
                return true;
            }
            t += 1;
        }
        false
    }

    /// Adds `p` with a freshly chosen random color iff `p` is within
    /// coordinate bounds and no retained site lies within epsilon of it.
    /// Returns whether insertion happened; a rejected site leaves the
    /// store untouched. Sites that were pairwise separated stay so.
    pub fn insert(&mut self, p: Site) -> (inserted: bool)
        requires
            old(self).wf(),
        ensures
            final(self).wf(),
            inserted == (p.ok() && !exists|i: int|
                0 <= i < old(self).sites@.len() && near(old(self).sites@[i], p)),
            inserted ==> final(self).sites@ == old(self).sites@.push(p)
                && final(self).colors@.len() == old(self).colors@.len() + 1
                && final(self).colors@.subrange(0, old(self).colors@.len() as int)
                    == old(self).colors@,
            !inserted ==> *final(self) == *old(self),
            separated(old(self).sites@) ==> separated(final(self).sites@),
    {
        if p.x < -MAX_COORD || p.x > MAX_COORD || p.y < -MAX_COORD || p.y > MAX_COORD {
            return false;
        }
        if self.contains_near(p) {
            return false;
        }
        let ghost old_sites = self.sites@;
        let ghost old_colors = self.colors@;
        self.sites.push(p);
        self.colors.push(random_color());
        proof {
            assert(final(self).colors@.subrange(0, old_colors.len() as int) =~= old_colors);
            if separated(old_sites) {
                lemma_separated_push(old_sites, p);
            }
        }
        true
    }

    /// Empties sites and colors together.
    pub fn clear(&mut self)
        ensures
            final(self).wf(),
            final(self).sites@.len() == 0,
            final(self).colors@.len() == 0,
    {
        self.sites.clear();
        self.colors.clear();
    }

    /// Replaces the entire contents with `n` freshly sampled random sites
    /// within `[0, width) x [0, height)`, each with a fresh random color.
    pub fn fill_random(&mut self, n: usize, width: i64, height: i64)
        requires
            0 < width <= MAX_COORD,
            0 < height <= MAX_COORD,
        ensures
            final(self).wf(),
            final(self).sites@.len() == n,
            final(self).colors@.len() == n,
            forall|i: int| 0 <= i < n ==> 0 <= (#[trigger] final(self).sites@[i]).x < width
                && 0 <= final(self).sites@[i].y < height,
    {
        self.sites.clear();
        self.colors.clear();
        let mut t: usize = 0;
        while t < n
            invariant
                0 < width <= MAX_COORD,
                0 < height <= MAX_COORD,
                0 <= t <= n,
                self.sites@.len() == t,
                self.colors@.len() == t,
                all_ok(self.sites@),
                colors_ok(self.colors@),
                forall|i: int| 0 <= i < t ==> 0 <= (#[trigger] self.sites@[i]).x < width
                    && 0 <= self.sites@[i].y < height,
            decreases n - t,
        {
            self.sites.push(random_site(width, height));
            self.colors.push(random_color());
            t += 1;
        }
    }

    /// Regenerates every color, preserving sites exactly; afterwards the
    /// color count matches the site count even if it had drifted.
    pub fn recolor(&mut self)
        ensures
            final(self).sites@ == old(self).sites@,
            final(self).colors@.len() == final(self).sites@.len(),
            colors_ok(final(self).colors@),
            all_ok(old(self).sites@) ==> final(self).wf(),
    {
        self.colors.clear();
        let n = self.sites.len();
        let mut t: usize = 0;
        while t < n
            invariant
                n == self.sites@.len(),
                self.sites@ == old(self).sites@,
                0 <= t <= n,
                self.colors@.len() == t,
                colors_ok(self.colors@),
            decreases n - t,
        {
            self.colors.push(random_color());
            t += 1;
        }
    }
}

} // verus!
