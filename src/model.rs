//! The state of the field: the sources and the grid configuration.
use vstd::prelude::*;
use crate::field::Metaball;
use crate::contour::{abs, contour_full_cells, contour_segments, extract_contours, Contours};

verus! {

/// Cell size of a fresh model.
pub const DEFAULT_GRID_SIZE: u32 = 15;

/// The sources, in insertion order, and the grid they are drawn on.
pub struct Model {
    pub metaballz: Vec<Metaball>,
    /// Side of a grid cell; never below 1.
    pub grid_size: u32,
    pub width: u32,
    pub height: u32,
}

/// Whether one advance step of `m` stays within the coordinate range.
pub open spec fn can_advance(m: Metaball) -> bool {
    i32::MIN <= m.x + m.x_change <= i32::MAX && i32::MIN <= m.y + m.y_change <= i32::MAX
}

/// Whether one revert step of `m` stays within the coordinate range.
pub open spec fn can_revert(m: Metaball) -> bool {
    i32::MIN <= m.x - m.x_change <= i32::MAX && i32::MIN <= m.y - m.y_change <= i32::MAX
}

/// `m` moved by its velocity.
pub open spec fn advanced(m: Metaball) -> Metaball {
    Metaball { x: (m.x + m.x_change) as i32, y: (m.y + m.y_change) as i32, ..m }
}

/// `m` moved back by its velocity.
pub open spec fn reverted(m: Metaball) -> Metaball {
    Metaball { x: (m.x - m.x_change) as i32, y: (m.y - m.y_change) as i32, ..m }
}

/// `p * amount / factor`, rounded towards zero.
pub open spec fn scaled(p: int, amount: int, factor: int) -> int {
    let q = p * amount;
    let mag = abs(q) as int / (abs(factor) as int);
    if (q >= 0) == (factor > 0) {
        mag
    } else {
        -mag
    }
}

/// Whether the fine-adjustment offsets of `m` fit the coordinate range.
pub open spec fn can_adjust(m: Metaball, amount: int, factor: int) -> bool {
    i32::MIN <= scaled(m.x_change as int, amount, factor) <= i32::MAX
        && i32::MIN <= scaled(m.y_change as int, amount, factor) <= i32::MAX
}

/// `m` with its offsets set to `amount / factor` of its velocity.
pub open spec fn adjusted(m: Metaball, amount: int, factor: int) -> Metaball {
    Metaball {
        x_offset: scaled(m.x_change as int, amount, factor) as i32,
        y_offset: scaled(m.y_change as int, amount, factor) as i32,
        ..m
    }
}

/// Every source advanced by one step.
pub open spec fn advanced_all(ms: Seq<Metaball>) -> Seq<Metaball> {
    ms.map_values(|m: Metaball| advanced(m))
}

/// Every source moved back by one step.
pub open spec fn reverted_all(ms: Seq<Metaball>) -> Seq<Metaball> {
    ms.map_values(|m: Metaball| reverted(m))
}

/// Every source with its fine-adjustment offsets set.
pub open spec fn adjusted_all(ms: Seq<Metaball>, amount: int, factor: int) -> Seq<Metaball> {
    ms.map_values(|m: Metaball| adjusted(m, amount, factor))
}

/// Advancing and then reverting every source gives back the very same
/// sources: the revert step is always possible after an advance.
pub proof fn lemma_advance_then_revert(ms: Seq<Metaball>)
    requires
        forall|i: int| 0 <= i < ms.len() ==> can_advance(#[trigger] ms[i]),
    ensures
        forall|i: int| 0 <= i < ms.len() ==> can_revert(#[trigger] advanced_all(ms)[i]),
        reverted_all(advanced_all(ms)) == ms,
{
    assert(reverted_all(advanced_all(ms)) =~= ms);
}

impl Model {
    /// The grid configuration is valid.
    pub open spec fn wf(&self) -> bool {
        self.grid_size >= 1
    }

    /// No sources, the default cell size, and a `width` by `height` viewport.
    pub fn new(width: u32, height: u32) -> (m: Self)
        ensures
            m.wf(),
            m.metaballz@.len() == 0,
            m.grid_size == DEFAULT_GRID_SIZE,
            m.width == width && m.height == height,
    {
        Model { metaballz: Vec::new(), grid_size: DEFAULT_GRID_SIZE, width, height }
    }

    /// Sets the cell size when `size` is at least 1; otherwise keeps the
    /// current one.
    pub fn set_grid_size(&mut self, size: i32)
        ensures
            size >= 1 ==> final(self).grid_size == size,
            size < 1 ==> final(self).grid_size == old(self).grid_size,
            final(self).metaballz@ == old(self).metaballz@,
            final(self).width == old(self).width && final(self).height == old(self).height,
            old(self).wf() ==> final(self).wf(),
    {
        if size >= 1 {
            self.grid_size = size as u32;
        }
    }

    /// Sets the viewport size.
    pub fn set_viewport(&mut self, width: u32, height: u32)
        ensures
            final(self).width == width && final(self).height == height,
            final(self).metaballz@ == old(self).metaballz@,
            final(self).grid_size == old(self).grid_size,
    {
        self.width = width;
        self.height = height;
    }

    /// Appends a source.
    pub fn add_metaball(&mut self, m: Metaball)
        ensures
            final(self).metaballz@ == old(self).metaballz@.push(m),
            final(self).grid_size == old(self).grid_size,
            final(self).width == old(self).width && final(self).height == old(self).height,
    {
        self.metaballz.push(m);
    }

    /// Replaces the source at `index`.
    pub fn set_metaball(&mut self, index: usize, m: Metaball)
        requires
            index < old(self).metaballz@.len(),
        ensures
            final(self).metaballz@ == old(self).metaballz@.update(index as int, m),
            final(self).grid_size == old(self).grid_size,
            final(self).width == old(self).width && final(self).height == old(self).height,
    {
        self.metaballz.set(index, m);
    }

    /// Removes the source at `index`; later sources move down by one.
    pub fn remove_metaball(&mut self, index: usize)
        requires
            index < old(self).metaballz@.len(),
        ensures
            final(self).metaballz@ == old(self).metaballz@.remove(index as int),
            final(self).grid_size == old(self).grid_size,
            final(self).width == old(self).width && final(self).height == old(self).height,
    {
        self.metaballz.remove(index);
    }

    /// Moves every source by its velocity, when every new position fits the
    /// coordinate range; otherwise changes nothing. Tells which happened.
    pub fn advance(&mut self) -> (moved: bool)
        ensures
            moved == (forall|i: int| 0 <= i < old(self).metaballz@.len() ==> can_advance(
                #[trigger] old(self).metaballz@[i],
            )),
            moved ==> final(self).metaballz@ == advanced_all(old(self).metaballz@),
            !moved ==> final(self).metaballz@ == old(self).metaballz@,
            final(self).grid_size == old(self).grid_size,
            final(self).width == old(self).width && final(self).height == old(self).height,
    {
        let ghost ms = self.metaballz@;
        let n = self.metaballz.len();
        let mut k: usize = 0;
        while k < n
            invariant
                ms == self.metaballz@,
                n == ms.len(),
                k <= n,
                forall|i: int| 0 <= i < k ==> can_advance(#[trigger] ms[i]),
            decreases n - k,
        {
            let m = self.metaballz[k];
            let x = m.x as i64 + m.x_change as i64;
            let y = m.y as i64 + m.y_change as i64;
            if x < i32::MIN as i64 || x > i32::MAX as i64 || y < i32::MIN as i64 || y > i32::MAX as i64 {
                return false;
            }
            k = k + 1;
        }
        k = 0;
        while k < n
            invariant
                forall|i: int| 0 <= i < n ==> can_advance(#[trigger] ms[i]),
                n == ms.len(),
                n == self.metaballz@.len(),
                k <= n,
                forall|i: int| 0 <= i < k ==> self.metaballz@[i] == advanced(ms[i]),
                forall|i: int| k <= i < n ==> self.metaballz@[i] == ms[i],
                self.grid_size == old(self).grid_size,
                self.width == old(self).width && self.height == old(self).height,
            decreases n - k,
        {
            let mut m = self.metaballz[k];
            assert(can_advance(ms[k as int]));
            m.x = m.x + m.x_change;
            m.y = m.y + m.y_change;
            self.metaballz.set(k, m);
            k = k + 1;
        }
        assert(self.metaballz@ =~= advanced_all(ms));
        true
    }

    /// Moves every source back by its velocity, when every new position fits
    /// the coordinate range; otherwise changes nothing. Tells which happened.
    pub fn deadvance(&mut self) -> (moved: bool)
        ensures
            moved == (forall|i: int| 0 <= i < old(self).metaballz@.len() ==> can_revert(
                #[trigger] old(self).metaballz@[i],
            )),
            moved ==> final(self).metaballz@ == reverted_all(old(self).metaballz@),
            !moved ==> final(self).metaballz@ == old(self).metaballz@,
            final(self).grid_size == old(self).grid_size,
            final(self).width == old(self).width && final(self).height == old(self).height,
    {
        let ghost ms = self.metaballz@;
        let n = self.metaballz.len();
        let mut k: usize = 0;
        while k < n
            invariant
                ms == self.metaballz@,
                n == ms.len(),
                k <= n,
                forall|i: int| 0 <= i < k ==> can_revert(#[trigger] ms[i]),
            decreases n - k,
        {
            let m = self.metaballz[k];
            let x = m.x as i64 - m.x_change as i64;
            let y = m.y as i64 - m.y_change as i64;
            if x < i32::MIN as i64 || x > i32::MAX as i64 || y < i32::MIN as i64 || y > i32::MAX as i64 {
                return false;
            }
            k = k + 1;
        }
        k = 0;
        while k < n
            invariant
                forall|i: int| 0 <= i < n ==> can_revert(#[trigger] ms[i]),
                n == ms.len(),
                n == self.metaballz@.len(),
                k <= n,
                forall|i: int| 0 <= i < k ==> self.metaballz@[i] == reverted(ms[i]),
                forall|i: int| k <= i < n ==> self.metaballz@[i] == ms[i],
                self.grid_size == old(self).grid_size,
                self.width == old(self).width && self.height == old(self).height,
            decreases n - k,
        {
            let mut m = self.metaballz[k];
            assert(can_revert(ms[k as int]));
            m.x = m.x - m.x_change;
            m.y = m.y - m.y_change;
            self.metaballz.set(k, m);
            k = k + 1;
        }
        assert(self.metaballz@ =~= reverted_all(ms));
        true
    }
}

fn scale(p: i32, amount: i32, factor: i32) -> (r: i64)
    requires
        factor != 0,
    ensures
        r == scaled(p as int, amount as int, factor as int),
{
    assert(-0x4000_0000_0000_0000 <= p * amount <= 0x4000_0000_0000_0000) by (nonlinear_arith)
        requires
            -0x8000_0000 <= p <= 0x7fff_ffff,
            -0x8000_0000 <= amount <= 0x7fff_ffff,
    ;
    let q: i64 = p as i64 * amount as i64;
    let aq: u64 = if q >= 0 { q as u64 } else { (0 - q) as u64 };
    let af: u64 = if factor > 0 { factor as u64 } else { (0 - factor as i64) as u64 };
    let mag: u64 = aq / af;
    assert(mag <= aq) by (nonlinear_arith)
        requires
            mag == aq / af,
            af >= 1,
    ;
    if (q >= 0) == (factor > 0) {
        mag as i64
    } else {
        0 - (mag as i64)
    }
}

impl Model {
    /// Sets the offsets of every source to `amount / factor` of its velocity
    /// (rounded towards zero), when `factor` is not zero and every offset
    /// fits the coordinate range; otherwise changes nothing. Tells which
    /// happened.
    pub fn set_fine_adjustment(&mut self, amount: i32, factor: i32) -> (set: bool)
        ensures
            set == (factor != 0 && forall|i: int| 0 <= i < old(self).metaballz@.len() ==> can_adjust(
                #[trigger] old(self).metaballz@[i],
                amount as int,
                factor as int,
            )),
            set ==> final(self).metaballz@ == adjusted_all(old(self).metaballz@, amount as int, factor as int),
            !set ==> final(self).metaballz@ == old(self).metaballz@,
            final(self).grid_size == old(self).grid_size,
            final(self).width == old(self).width && final(self).height == old(self).height,
    {
        if factor == 0 {
            return false;
        }
        let ghost ms = self.metaballz@;
        let n = self.metaballz.len();
        let mut k: usize = 0;
        while k < n
            invariant
                ms == self.metaballz@,
                factor != 0,
                n == ms.len(),
                k <= n,
                forall|i: int| 0 <= i < k ==> can_adjust(#[trigger] ms[i], amount as int, factor as int),
            decreases n - k,
        {
            let m = self.metaballz[k];
            let x = scale(m.x_change, amount, factor);
            let y = scale(m.y_change, amount, factor);
            if x < i32::MIN as i64 || x > i32::MAX as i64 || y < i32::MIN as i64 || y > i32::MAX as i64 {
                return false;
            }
            k = k + 1;
        }
        k = 0;
        while k < n
            invariant
                factor != 0,
                forall|i: int| 0 <= i < n ==> can_adjust(#[trigger] ms[i], amount as int, factor as int),
                n == ms.len(),
                n == self.metaballz@.len(),
                k <= n,
                forall|i: int| 0 <= i < k ==> self.metaballz@[i] == adjusted(ms[i], amount as int, factor as int),
                forall|i: int| k <= i < n ==> self.metaballz@[i] == ms[i],
                self.grid_size == old(self).grid_size,
                self.width == old(self).width && self.height == old(self).height,
            decreases n - k,
        {
            let mut m = self.metaballz[k];
            assert(can_adjust(ms[k as int], amount as int, factor as int));
            m.x_offset = scale(m.x_change, amount, factor) as i32;
            m.y_offset = scale(m.y_change, amount, factor) as i32;
            self.metaballz.set(k, m);
            k = k + 1;
        }
        assert(self.metaballz@ =~= adjusted_all(ms, amount as int, factor as int));
        true
    }
}

/// The contour of the model's sources on its grid.
pub fn marching_squares(model: &Model) -> (c: Contours)
    requires
        model.wf(),
    ensures
        c.segments@ == contour_segments(
            model.metaballz@,
            model.grid_size as nat,
            model.width as nat,
            model.height as nat,
        ),
        c.full_cells@ == contour_full_cells(
            model.metaballz@,
            model.grid_size as nat,
            model.width as nat,
            model.height as nat,
        ),
{
    extract_contours(&model.metaballz, model.grid_size, model.width, model.height)
}

} // verus!
