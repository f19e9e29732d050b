//! Walking the zones of a rectangle, row by row.

use crate::zone::Zone;
use vstd::prelude::*;

verus! {

/// The zones with `start_x <= x <= end_x` and `start_y <= y <= end_y`, each
/// once: the row `start_y` from left to right, then the row above it, and so
/// on. Empty when the bounds are out of order.
pub open spec fn zone_rect(start_x: int, start_y: int, end_x: int, end_y: int) -> Seq<Zone> {
    if start_x <= end_x && start_y <= end_y {
        let width = end_x - start_x + 1;
        let height = end_y - start_y + 1;
        Seq::new(
            (width * height) as nat,
            |i: int| Zone { x: (start_x + i % width) as i32, y: (start_y + i / width) as i32 },
        )
    } else {
        Seq::empty()
    }
}

/// The square of zones that reaches `radius` zones from `center` in every
/// direction: `(2 * radius + 1)` rows of as many zones.
pub open spec fn zone_square(center: Zone, radius: int) -> Seq<Zone> {
    zone_rect(center.x - radius, center.y - radius, center.x + radius, center.y + radius)
}

/// Whether all four bounds are coordinates a zone can have.
pub open spec fn rect_in_range(start_x: int, start_y: int, end_x: int, end_y: int) -> bool {
    &&& i32::MIN <= start_x <= end_x <= i32::MAX
    &&& i32::MIN <= start_y <= end_y <= i32::MAX
}

/// Where the zone in column `x` and row `y` stands in `zone_rect`.
pub open spec fn rect_index(start_x: int, start_y: int, end_x: int, x: int, y: int) -> int {
    (y - start_y) * (end_x - start_x + 1) + (x - start_x)
}

/// Whether zone `a` is walked before zone `b`: it lies in a lower row, or in
/// the same row further left.
pub open spec fn zone_before(a: Zone, b: Zone) -> bool {
    a.y < b.y || (a.y == b.y && a.x < b.x)
}

/// A rectangle has as many zones as its width times its height.
pub proof fn lemma_zone_rect_len(start_x: int, start_y: int, end_x: int, end_y: int)
    requires
        start_x <= end_x,
        start_y <= end_y,
    ensures
        zone_rect(start_x, start_y, end_x, end_y).len() == (end_x - start_x + 1) * (end_y - start_y
            + 1),
{
    let width = end_x - start_x + 1;
    let height = end_y - start_y + 1;
    assert(width * height >= 0) by (nonlinear_arith)
        requires
            width >= 1,
            height >= 1,
    ;
}

/// A square of radius `r` has `(2r + 1)²` zones.
pub proof fn lemma_zone_square_len(center: Zone, radius: int)
    requires
        radius >= 0,
    ensures
        zone_square(center, radius).len() == (2 * radius + 1) * (2 * radius + 1),
{
    lemma_zone_rect_len(
        center.x - radius,
        center.y - radius,
        center.x + radius,
        center.y + radius,
    );
}

/// Every zone inside the bounds stands in the rectangle, at `rect_index`.
pub proof fn lemma_zone_rect_index(
    start_x: int,
    start_y: int,
    end_x: int,
    end_y: int,
    zone: Zone,
)
    requires
        rect_in_range(start_x, start_y, end_x, end_y),
        start_x <= zone.x <= end_x,
        start_y <= zone.y <= end_y,
    ensures
        0 <= rect_index(start_x, start_y, end_x, zone.x as int, zone.y as int) < zone_rect(
            start_x,
            start_y,
            end_x,
            end_y,
        ).len(),
        zone_rect(start_x, start_y, end_x, end_y)[rect_index(
            start_x,
            start_y,
            end_x,
            zone.x as int,
            zone.y as int,
        )] == zone,
{
    let width = end_x - start_x + 1;
    let height = end_y - start_y + 1;
    let row = zone.y - start_y;
    let column = zone.x - start_x;
    let i = row * width + column;
    lemma_zone_rect_len(start_x, start_y, end_x, end_y);
    assert(0 <= i < width * height) by (nonlinear_arith)
        requires
            i == row * width + column,
            0 <= row < height,
            0 <= column < width,
    ;
    vstd::arithmetic::div_mod::lemma_fundamental_div_mod_converse(i, width, row, column);
}

/// Every zone of the rectangle lies inside the bounds, and stands at its
/// `rect_index`.
pub proof fn lemma_zone_rect_entry(start_x: int, start_y: int, end_x: int, end_y: int, i: int)
    requires
        rect_in_range(start_x, start_y, end_x, end_y),
        0 <= i < zone_rect(start_x, start_y, end_x, end_y).len(),
    ensures
        start_x <= zone_rect(start_x, start_y, end_x, end_y)[i].x <= end_x,
        start_y <= zone_rect(start_x, start_y, end_x, end_y)[i].y <= end_y,
        rect_index(
            start_x,
            start_y,
            end_x,
            zone_rect(start_x, start_y, end_x, end_y)[i].x as int,
            zone_rect(start_x, start_y, end_x, end_y)[i].y as int,
        ) == i,
{
    let width = end_x - start_x + 1;
    let height = end_y - start_y + 1;
    lemma_zone_rect_len(start_x, start_y, end_x, end_y);
    vstd::arithmetic::div_mod::lemma_fundamental_div_mod(i, width);
    vstd::arithmetic::div_mod::lemma_mod_bound(i, width);
    let row = i / width;
    let column = i % width;
    assert(width * row == row * width) by (nonlinear_arith);
    assert(0 <= row < height) by (nonlinear_arith)
        requires
            i == row * width + column,
            0 <= column < width,
            0 <= i < width * height,
    ;
}

/// A zone stands in the rectangle exactly when it lies inside the bounds.
pub proof fn lemma_zone_rect_contains(
    start_x: int,
    start_y: int,
    end_x: int,
    end_y: int,
    zone: Zone,
)
    requires
        rect_in_range(start_x, start_y, end_x, end_y),
    ensures
        zone_rect(start_x, start_y, end_x, end_y).contains(zone) <==> (start_x <= zone.x <= end_x
            && start_y <= zone.y <= end_y),
{
    let rect = zone_rect(start_x, start_y, end_x, end_y);
    if start_x <= zone.x <= end_x && start_y <= zone.y <= end_y {
        lemma_zone_rect_index(start_x, start_y, end_x, end_y, zone);
    }
    if rect.contains(zone) {
        let i = choose|i: int| 0 <= i < rect.len() && rect[i] == zone;
        lemma_zone_rect_entry(start_x, start_y, end_x, end_y, i);
    }
}

/// No zone stands twice in a rectangle.
pub proof fn lemma_zone_rect_no_duplicates(start_x: int, start_y: int, end_x: int, end_y: int)
    requires
        rect_in_range(start_x, start_y, end_x, end_y),
    ensures
        zone_rect(start_x, start_y, end_x, end_y).no_duplicates(),
{
    let rect = zone_rect(start_x, start_y, end_x, end_y);
    assert forall|i: int, j: int|
        0 <= i < rect.len() && 0 <= j < rect.len() && i != j implies rect[i] != rect[j] by {
        lemma_zone_rect_entry(start_x, start_y, end_x, end_y, i);
        lemma_zone_rect_entry(start_x, start_y, end_x, end_y, j);
    }
}

/// In a rectangle, the zone that is walked before another stands before it.
pub proof fn lemma_rect_index_order(
    start_x: int,
    start_y: int,
    end_x: int,
    end_y: int,
    a: Zone,
    b: Zone,
)
    requires
        start_x <= a.x <= end_x,
        start_x <= b.x <= end_x,
    ensures
        rect_index(start_x, start_y, end_x, a.x as int, a.y as int) < rect_index(
            start_x,
            start_y,
            end_x,
            b.x as int,
            b.y as int,
        ) <==> zone_before(a, b),
{
    let width = end_x - start_x + 1;
    let a_row = a.y - start_y;
    let b_row = b.y - start_y;
    let a_column = a.x - start_x;
    let b_column = b.x - start_x;
    assert(a_row * width + a_column < b_row * width + b_column <==> (a_row < b_row || (a_row
        == b_row && a_column < b_column))) by (nonlinear_arith)
        requires
            0 <= a_column < width,
            0 <= b_column < width,
    ;
}

/// A rectangle lists its zones row by row, and each row from left to right:
/// every zone is walked before the zones that stand after it.
pub proof fn lemma_zone_rect_in_order(start_x: int, start_y: int, end_x: int, end_y: int)
    requires
        rect_in_range(start_x, start_y, end_x, end_y),
    ensures
        forall|i: int, j: int|
            0 <= i < j < zone_rect(start_x, start_y, end_x, end_y).len() ==> zone_before(
                #[trigger] zone_rect(start_x, start_y, end_x, end_y)[i],
                #[trigger] zone_rect(start_x, start_y, end_x, end_y)[j],
            ),
{
    let rect = zone_rect(start_x, start_y, end_x, end_y);
    assert forall|i: int, j: int| 0 <= i < j < rect.len() implies zone_before(
        #[trigger] rect[i],
        #[trigger] rect[j],
    ) by {
        lemma_zone_rect_entry(start_x, start_y, end_x, end_y, i);
        lemma_zone_rect_entry(start_x, start_y, end_x, end_y, j);
        lemma_rect_index_order(start_x, start_y, end_x, end_y, rect[i], rect[j]);
    }
}

/// Hands out the zones of a rectangle one at a time, in the order of
/// [`zone_rect`].
///
/// A walk is known by the corner it starts from, the corner it ends at, and the
/// zone it handed out last.
pub struct ZoneIter {
    start_x: i32,
    start_y: i32,
    end_x: i32,
    end_y: i32,
    prior: Option<Zone>,
}

impl ZoneIter {
    #[verifier::type_invariant]
    spec fn well_formed(self) -> bool {
        &&& self.start_x <= self.end_x
        &&& self.start_y <= self.end_y
        &&& self.prior matches Some(prior) ==> {
            &&& self.start_x <= prior.x <= self.end_x
            &&& self.start_y <= prior.y <= self.end_y
        }
    }

    /// The first zone of the walk: the least column and the least row.
    pub closed spec fn first(self) -> Zone {
        Zone { x: self.start_x, y: self.start_y }
    }

    /// The last zone of the walk: the greatest column and the greatest row.
    pub closed spec fn last(self) -> Zone {
        Zone { x: self.end_x, y: self.end_y }
    }

    /// The zone handed out last, if any was.
    pub closed spec fn prior(self) -> Option<Zone> {
        self.prior
    }

    /// All the zones of the walk, those already handed out included.
    pub open spec fn zones(self) -> Seq<Zone> {
        zone_rect(
            self.first().x as int,
            self.first().y as int,
            self.last().x as int,
            self.last().y as int,
        )
    }

    /// How many zones have been handed out.
    pub open spec fn position(self) -> int {
        match self.prior() {
            Some(prior) => rect_index(
                self.first().x as int,
                self.first().y as int,
                self.last().x as int,
                prior.x as int,
                prior.y as int,
            ) + 1,
            None => 0,
        }
    }

    /// The zones still to come, in the order in which `next` hands them out.
    pub open spec fn remaining(self) -> Seq<Zone> {
        self.zones().skip(self.position())
    }

    /// The zone that comes next: the first one if none was handed out yet,
    /// else the right neighbor of the one handed out last, or the left end of
    /// the row above where that one ended its row. `None` after the last zone.
    pub open spec fn upcoming(self) -> Option<Zone> {
        match self.prior() {
            None => Some(self.first()),
            Some(prior) => if prior == self.last() {
                None
            } else if prior.x == self.last().x {
                Some(Zone { x: self.first().x, y: (prior.y + 1) as i32 })
            } else {
                Some(Zone { x: (prior.x + 1) as i32, y: prior.y })
            },
        }
    }

    /// A walk over the zones from `start` to `end`, both included.
    pub fn spanning(start: Zone, end: Zone) -> (walk: ZoneIter)
        requires
            start.x <= end.x,
            start.y <= end.y,
        ensures
            walk.first() == start,
            walk.last() == end,
            walk.prior() is None,
            walk.remaining() == zone_rect(
                start.x as int,
                start.y as int,
                end.x as int,
                end.y as int,
            ),
    {
        ZoneIter { start_x: start.x, start_y: start.y, end_x: end.x, end_y: end.y, prior: None }
    }

    /// A walk over the square of zones that reaches `radius` zones from `zone`
    /// in every direction: `2 * radius + 1` rows of as many zones, which makes
    /// `4 * radius² + 4 * radius + 1` zones.
    pub fn new(zone: &Zone, radius: i32) -> (walk: ZoneIter)
        requires
            radius >= 0,
            i32::MIN <= zone.x - radius,
            zone.x + radius <= i32::MAX,
            i32::MIN <= zone.y - radius,
            zone.y + radius <= i32::MAX,
        ensures
            walk.first() == (Zone { x: (zone.x - radius) as i32, y: (zone.y - radius) as i32 }),
            walk.last() == (Zone { x: (zone.x + radius) as i32, y: (zone.y + radius) as i32 }),
            walk.prior() is None,
            walk.remaining() == zone_square(*zone, radius as int),
            walk.remaining().len() == 4 * (radius * radius) + 4 * radius + 1,
    {
        proof {
            lemma_zone_square_len(*zone, radius as int);
            assert((2 * radius + 1) * (2 * radius + 1) == 4 * (radius * radius) + 4 * radius + 1)
                by (nonlinear_arith);
        }
        ZoneIter {
            start_x: zone.x - radius,
            start_y: zone.y - radius,
            end_x: zone.x + radius,
            end_y: zone.y + radius,
            prior: None,
        }
    }

    /// Hands out the next zone of the walk, or `None` once every zone has been
    /// handed out; from then on it stays `None`.
    pub fn next(&mut self) -> (next: Option<Zone>)
        ensures
            final(self).first() == old(self).first(),
            final(self).last() == old(self).last(),
            next == old(self).upcoming(),
            final(self).prior() == (if next is Some {
                next
            } else {
                old(self).prior()
            }),
            0 <= old(self).position() <= old(self).zones().len(),
            next is None <==> old(self).position() == old(self).zones().len(),
            next matches Some(zone) ==> zone == old(self).zones()[old(self).position()],
            final(self).position() == old(self).position() + (if next is Some {
                1int
            } else {
                0int
            }),
    {
        proof {
            use_type_invariant(&*self);
            self.lemma_position();
        }
        let next = match self.prior {
            Some(prior) => {
                if prior.x == self.end_x {
                    if prior.y == self.end_y {
                        return None;
                    }
                    Zone { x: self.start_x, y: prior.y + 1 }
                } else {
                    Zone { x: prior.x + 1, y: prior.y }
                }
            },
            None => Zone { x: self.start_x, y: self.start_y },
        };
        proof {
            let width = self.end_x - self.start_x + 1;
            lemma_zone_rect_index(
                self.start_x as int,
                self.start_y as int,
                self.end_x as int,
                self.end_y as int,
                next,
            );
            if let Some(prior) = self.prior {
                assert((prior.y + 1 - self.start_y) * width == (prior.y - self.start_y) * width
                    + width) by (nonlinear_arith);
            }
        }
        self.prior = Some(next);
        Some(next)
    }

    /// The position never runs past the end, and reaches it exactly when the
    /// last zone has been handed out.
    proof fn lemma_position(self)
        requires
            self.well_formed(),
        ensures
            0 <= self.position() <= self.zones().len(),
            self.position() == self.zones().len() <==> self.prior == Some(self.last()),
    {
        let width = self.end_x - self.start_x + 1;
        let height = self.end_y - self.start_y + 1;
        lemma_zone_rect_len(
            self.start_x as int,
            self.start_y as int,
            self.end_x as int,
            self.end_y as int,
        );
        if let Some(prior) = self.prior {
            let row = prior.y - self.start_y;
            let column = prior.x - self.start_x;
            assert(row * width + column + 1 <= width * height && (row * width + column + 1 == width
                * height <==> (row == height - 1 && column == width - 1))) by (nonlinear_arith)
                requires
                    0 <= row < height,
                    0 <= column < width,
            ;
        } else {
            assert(width * height > 0) by (nonlinear_arith)
                requires
                    width >= 1,
                    height >= 1,
            ;
        }
    }
}

} // verus!
