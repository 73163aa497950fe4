//! Displays, and the identity that survives one being unplugged.
//!
//! A display that comes back must come back as *the same display*. Everything a shell remembers
//! about a screen is keyed on that, so an identity that changes across a disconnect is a desktop
//! that forgets every time a cable moves. The compositor supplies identity and remembers
//! association; where a window goes is the shell's to decide.
//!
//! The set is kept as a vector ordered by identity, which is the order a shell is told about
//! displays in, and the order ties are broken in.

use vstd::prelude::*;
use vstd::arithmetic::div_mod::{lemma_fundamental_div_mod, lemma_mod_multiples_vanish, lemma_small_mod};

use crate::model::{Point, Rect, Size};

verus! {

/// A display's durable identity: the same physical display, presented to the same machine,
/// yields the same identity across unplug, mode change, restart and reboot.
#[derive(Clone, Copy, Debug, PartialEq, Eq, Structural, Hash, PartialOrd, Ord)]
pub struct OutputIdentity(pub u128);

/// What an identity was derived from, and therefore how much it can be trusted.
#[derive(Clone, Copy, Debug, PartialEq, Eq, Structural)]
pub enum IdentitySource {
    /// The display asserts something unique to it. Moving it to another port keeps its identity.
    Panel,
    /// Derived from the connector. Two identical panels swapped between ports swap identities.
    Position,
}

/// A display's current properties.
#[derive(Clone, Copy, Debug, PartialEq, Eq, Structural)]
pub struct OutputInfo {
    /// Resolution in device pixels.
    pub size: Size,
    /// Physical size in millimetres.
    pub physical_millimetres: Size,
    /// Scale as an exact ratio: 1.5 is 3/2.
    pub scale_numerator: u32,
    pub scale_denominator: u32,
    /// Refresh in millihertz, so 59.94 Hz is exact.
    pub refresh_millihertz: u32,
}

/// Bound on either term of a scale ratio, so a coordinate multiplied by a ratio cannot overflow
/// an intermediate.
pub const MAX_SCALE_TERM: u32 = 65_536;

/// `d` divides both `a` and `b`.
pub open spec fn common_divisor(a: int, b: int, d: int) -> bool {
    a % d == 0 && b % d == 0
}

/// No integer above one divides both terms: the ratio is in lowest terms.
pub open spec fn coprime(a: int, b: int) -> bool {
    forall|d: int| 1 < d ==> !#[trigger] common_divisor(a, b, d)
}

/// A usable scale: both terms positive, neither above [`MAX_SCALE_TERM`], and in lowest terms,
/// so two scales are equal exactly when their fields are.
pub open spec fn scale_canonical(info: OutputInfo) -> bool {
    &&& info.scale_numerator != 0
    &&& info.scale_denominator != 0
    &&& info.scale_numerator <= MAX_SCALE_TERM
    &&& info.scale_denominator <= MAX_SCALE_TERM
    &&& coprime(info.scale_numerator as int, info.scale_denominator as int)
}

impl OutputInfo {
    /// Whether the scale is a usable ratio in lowest terms.
    pub fn scale_is_canonical(&self) -> (canonical: bool)
        ensures
            canonical == scale_canonical(*self),
    {
        if self.scale_numerator == 0 || self.scale_denominator == 0 {
            return false;
        }
        if self.scale_numerator > MAX_SCALE_TERM || self.scale_denominator > MAX_SCALE_TERM {
            return false;
        }
        let divisor = greatest_common_divisor(self.scale_numerator, self.scale_denominator);
        proof {
            let a = self.scale_numerator as int;
            let b = self.scale_denominator as int;
            if divisor != 1 {
                assert(common_divisor(a, b, divisor as int));
            } else {
                assert forall|d: int| 1 < d implies !#[trigger] common_divisor(a, b, d) by {
                    if common_divisor(a, b, d) {
                        lemma_small_mod(1, d as nat);
                    }
                }
            }
        }
        divisor == 1
    }
}

proof fn lemma_common_divisor_step(a: int, b: int, d: int)
    requires
        a >= 0,
        b > 0,
        d > 0,
    ensures
        common_divisor(a, b, d) <==> common_divisor(b, a % b, d),
{
    lemma_fundamental_div_mod(a, b);
    if b % d == 0 {
        lemma_fundamental_div_mod(b, d);
        let q = a / b;
        let c = b / d;
        let k = c * q;
        assert(b * q == d * k) by (nonlinear_arith)
            requires
                b == d * c + 0,
                k == c * q,
        ;
        lemma_mod_multiples_vanish(k, a % b, d);
    }
}

/// Euclid's algorithm. Its result is one exactly when the terms share no divisor above one.
fn greatest_common_divisor(a: u32, b: u32) -> (divisor: u32)
    requires
        a > 0,
    ensures
        divisor > 0,
        common_divisor(a as int, b as int, divisor as int),
        forall|d: int| d > 0 ==> (common_divisor(a as int, b as int, d) ==> divisor as int % d == 0),
{
    let mut x: u32 = a;
    let mut y: u32 = b;
    while y != 0
        invariant
            x > 0,
            forall|d: int|
                d > 0 ==> (#[trigger] common_divisor(x as int, y as int, d) <==> common_divisor(
                    a as int,
                    b as int,
                    d,
                )),
        decreases y,
    {
        let next: u32 = x % y;
        proof {
            assert forall|d: int| d > 0 implies (#[trigger] common_divisor(y as int, next as int, d)
                <==> common_divisor(a as int, b as int, d)) by {
                lemma_common_divisor_step(x as int, y as int, d);
            }
        }
        x = y;
        y = next;
    }
    proof {
        assert(common_divisor(x as int, 0, x as int));
        assert forall|d: int| d > 0 && common_divisor(a as int, b as int, d) implies x as int % d
            == 0 by {
            assert(common_divisor(x as int, 0, d) <==> common_divisor(a as int, b as int, d));
        }
    }
    x
}

/// The exclusive right or bottom edge of a span, saturating at the largest coordinate.
pub open spec fn saturating_end(start: i32, length: u32) -> int {
    if start + length > i32::MAX {
        i32::MAX as int
    } else {
        start + length
    }
}

/// Whether two rectangles share any area, with edges saturated at the largest coordinate. A
/// rectangle with no width or no height has no area, so it shares none.
pub open spec fn rects_overlap(a: Rect, b: Rect) -> bool {
    &&& a.width > 0 && a.height > 0 && b.width > 0 && b.height > 0
    &&& a.x < saturating_end(b.x, b.width)
    &&& b.x < saturating_end(a.x, a.width)
    &&& a.y < saturating_end(b.y, b.height)
    &&& b.y < saturating_end(a.y, a.height)
}

fn saturating_end_of(start: i32, length: u32) -> (end: i32)
    ensures
        end == saturating_end(start, length),
{
    let wide: i64 = start as i64 + length as i64;
    if wide > i32::MAX as i64 {
        i32::MAX
    } else {
        wide as i32
    }
}

fn overlaps(a: Rect, b: Rect) -> (shared: bool)
    ensures
        shared == rects_overlap(a, b),
{
    let a_right = saturating_end_of(a.x, a.width);
    let a_bottom = saturating_end_of(a.y, a.height);
    let b_right = saturating_end_of(b.x, b.width);
    let b_bottom = saturating_end_of(b.y, b.height);
    a.width > 0 && a.height > 0 && b.width > 0 && b.height > 0 && a.x < b_right && b.x < a_right && a.y < b_bottom && b.y < a_bottom
}

/// The furthest coordinate along one axis that still keeps a span of `length` inside a screen
/// span, or the screen's start when the span is larger than the screen.
pub open spec fn furthest_start(screen_start: i32, screen_length: u32, length: u32) -> int {
    let slack: int = if screen_length >= length {
        screen_length - length
    } else {
        0
    };
    saturating_end(screen_start, slack as u32)
}

/// One coordinate clamped into `[low, high]`, taking `low` when the bounds cross.
pub open spec fn clamp_coordinate(value: int, low: int, high: int) -> int {
    if value < low {
        low
    } else if value > high {
        high
    } else {
        value
    }
}

/// The position that puts `area` wholly inside `screen`, or as far in as it fits.
pub open spec fn clamped_position(screen: Rect, area: Rect) -> Point {
    Point {
        x: clamp_coordinate(
            area.x as int,
            screen.x as int,
            furthest_start(screen.x, screen.width, area.width),
        ) as i32,
        y: clamp_coordinate(
            area.y as int,
            screen.y as int,
            furthest_start(screen.y, screen.height, area.height),
        ) as i32,
    }
}

fn clamp_into(screen: Rect, area: Rect) -> (position: Point)
    ensures
        position == clamped_position(screen, area),
{
    let slack_x: u32 = if screen.width >= area.width {
        screen.width - area.width
    } else {
        0
    };
    let slack_y: u32 = if screen.height >= area.height {
        screen.height - area.height
    } else {
        0
    };
    let max_x = saturating_end_of(screen.x, slack_x);
    let max_y = saturating_end_of(screen.y, slack_y);
    let x: i32 = if area.x < screen.x {
        screen.x
    } else if area.x > max_x {
        max_x
    } else {
        area.x
    };
    let y: i32 = if area.y < screen.y {
        screen.y
    } else if area.y > max_y {
        max_y
    } else {
        area.y
    };
    Point { x, y }
}

/// What the compositor knows about one display, present or not.
#[derive(Clone, Copy, Debug, PartialEq, Eq, Structural)]
pub struct Output {
    pub info: OutputInfo,
    pub source: IdentitySource,
    /// Whether the display is attached now.
    pub present: bool,
    /// Where the shell has placed this display in the scene. `None` until it says.
    pub position: Option<Point>,
}

/// What one atomic topology change did.
///
/// A dock carrying three displays is one change, not three: reporting it as three makes a shell
/// rearrange three times.
#[derive(Clone, Debug, Default, PartialEq, Eq)]
pub struct TopologyDelta {
    /// Displays that were not present and now are, and were never seen before.
    pub arrived: Vec<OutputIdentity>,
    /// Displays that were not present and now are, and are recognised from before.
    pub returned: Vec<OutputIdentity>,
    /// Displays that were present and now are not. Their memory is kept.
    pub departed: Vec<OutputIdentity>,
    /// Displays that stayed present and changed what they report.
    pub reconfigured: Vec<OutputIdentity>,
}

impl TopologyDelta {
    /// Whether anything changed at all.
    pub fn is_empty(&self) -> (empty: bool)
        ensures
            empty == (self.arrived@.len() == 0 && self.returned@.len() == 0
                && self.departed@.len() == 0 && self.reconfigured@.len() == 0),
    {
        self.arrived.len() == 0 && self.returned.len() == 0 && self.departed.len() == 0
            && self.reconfigured.len() == 0
    }
}

/// One listed display in a topology change: its identity, where that identity came from, and
/// what it reports.
pub type Listing = (OutputIdentity, IdentitySource, OutputInfo);

/// Entries strictly ordered by identity, so no identity appears twice.
pub open spec fn ordered(entries: Seq<(OutputIdentity, Output)>) -> bool {
    forall|i: int, j: int| 0 <= i < j < entries.len() ==> entries[i].0.0 < entries[j].0.0
}

/// Some entry carries this identity.
pub open spec fn holds(entries: Seq<(OutputIdentity, Output)>, identity: OutputIdentity) -> bool {
    exists|i: int| 0 <= i < entries.len() && entries[i].0 == identity
}

/// The displays the entries describe, keyed by identity.
pub open spec fn entries_map(entries: Seq<(OutputIdentity, Output)>) -> Map<
    OutputIdentity,
    Output,
> {
    Map::new(
        |identity: OutputIdentity| holds(entries, identity),
        |identity: OutputIdentity|
            entries[choose|i: int| 0 <= i < entries.len() && entries[i].0 == identity].1,
    )
}

proof fn lemma_entry_in_map(entries: Seq<(OutputIdentity, Output)>, i: int)
    requires
        ordered(entries),
        0 <= i < entries.len(),
    ensures
        entries_map(entries).contains_key(entries[i].0),
        entries_map(entries)[entries[i].0] == entries[i].1,
{
    let identity = entries[i].0;
    assert(holds(entries, identity));
    let j = choose|j: int| 0 <= j < entries.len() && entries[j].0 == identity;
    if j < i {
        assert(entries[j].0.0 < entries[i].0.0);
    } else if j > i {
        assert(entries[i].0.0 < entries[j].0.0);
    }
}

proof fn lemma_update_entry(entries: Seq<(OutputIdentity, Output)>, i: int, output: Output)
    requires
        ordered(entries),
        0 <= i < entries.len(),
    ensures
        ordered(entries.update(i, (entries[i].0, output))),
        entries_map(entries.update(i, (entries[i].0, output))) =~= entries_map(entries).insert(
            entries[i].0,
            output,
        ),
{
    let updated = entries.update(i, (entries[i].0, output));
    assert(ordered(updated));
    let before = entries_map(entries);
    let after = entries_map(updated);
    assert forall|identity: OutputIdentity| #[trigger]
        after.contains_key(identity) == before.insert(entries[i].0, output).contains_key(
            identity,
        ) by {
        if holds(updated, identity) {
            let j = choose|j: int| 0 <= j < updated.len() && updated[j].0 == identity;
            assert(entries[j].0 == identity);
        }
        if holds(entries, identity) {
            let j = choose|j: int| 0 <= j < entries.len() && entries[j].0 == identity;
            assert(updated[j].0 == identity);
        }
    }
    assert forall|identity: OutputIdentity| after.contains_key(identity) implies after[identity]
        == before.insert(entries[i].0, output)[identity] by {
        let j = choose|j: int| 0 <= j < updated.len() && updated[j].0 == identity;
        lemma_entry_in_map(updated, j);
        if j != i {
            lemma_entry_in_map(entries, j);
        }
    }
}

proof fn lemma_insert_entry(
    entries: Seq<(OutputIdentity, Output)>,
    position: int,
    identity: OutputIdentity,
    output: Output,
)
    requires
        ordered(entries),
        0 <= position <= entries.len(),
        forall|j: int| 0 <= j < position ==> entries[j].0.0 < identity.0,
        forall|j: int| position <= j < entries.len() ==> identity.0 < entries[j].0.0,
    ensures
        ordered(entries.insert(position, (identity, output))),
        entries_map(entries.insert(position, (identity, output))) =~= entries_map(entries).insert(
            identity,
            output,
        ),
{
    let inserted = entries.insert(position, (identity, output));
    assert(ordered(inserted));
    let before = entries_map(entries);
    let after = entries_map(inserted);
    assert forall|key: OutputIdentity| #[trigger]
        after.contains_key(key) == before.insert(identity, output).contains_key(key) by {
        if holds(inserted, key) {
            let j = choose|j: int| 0 <= j < inserted.len() && inserted[j].0 == key;
            if j < position {
                assert(entries[j].0 == key);
            } else if j > position {
                assert(entries[j - 1].0 == key);
            }
        }
        if holds(entries, key) {
            let j = choose|j: int| 0 <= j < entries.len() && entries[j].0 == key;
            if j < position {
                assert(inserted[j].0 == key);
            } else {
                assert(inserted[j + 1].0 == key);
            }
        }
        if key == identity {
            assert(inserted[position].0 == key);
        }
    }
    assert forall|key: OutputIdentity| after.contains_key(key) implies after[key] == before.insert(
        identity,
        output,
    )[key] by {
        let j = choose|j: int| 0 <= j < inserted.len() && inserted[j].0 == key;
        lemma_entry_in_map(inserted, j);
        if j < position {
            lemma_entry_in_map(entries, j);
        } else if j > position {
            lemma_entry_in_map(entries, j - 1);
        }
    }
}

proof fn lemma_remove_entry(entries: Seq<(OutputIdentity, Output)>, i: int)
    requires
        ordered(entries),
        0 <= i < entries.len(),
    ensures
        ordered(entries.remove(i)),
        entries_map(entries.remove(i)) =~= entries_map(entries).remove(entries[i].0),
{
    let removed = entries.remove(i);
    assert(ordered(removed)) by {
        assert forall|a: int, b: int| 0 <= a < b < removed.len() implies removed[a].0.0
            < removed[b].0.0 by {
            let a0 = if a < i {
                a
            } else {
                a + 1
            };
            let b0 = if b < i {
                b
            } else {
                b + 1
            };
            assert(removed[a] == entries[a0]);
            assert(removed[b] == entries[b0]);
        }
    }
    let before = entries_map(entries);
    let after = entries_map(removed);
    assert forall|key: OutputIdentity| #[trigger]
        after.contains_key(key) == before.remove(entries[i].0).contains_key(key) by {
        if holds(removed, key) {
            let j = choose|j: int| 0 <= j < removed.len() && removed[j].0 == key;
            let j0 = if j < i {
                j
            } else {
                j + 1
            };
            assert(entries[j0].0 == key);
            assert(entries[j0].0.0 != entries[i].0.0);
        }
        if holds(entries, key) && key != entries[i].0 {
            let j = choose|j: int| 0 <= j < entries.len() && entries[j].0 == key;
            if j < i {
                assert(removed[j].0 == key);
            } else {
                assert(removed[j - 1].0 == key);
            }
        }
    }
    assert forall|key: OutputIdentity| after.contains_key(key) implies after[key] == before.remove(
        entries[i].0,
    )[key] by {
        let j = choose|j: int| 0 <= j < removed.len() && removed[j].0 == key;
        lemma_entry_in_map(removed, j);
        if j < i {
            lemma_entry_in_map(entries, j);
        } else {
            lemma_entry_in_map(entries, j + 1);
        }
    }
}

proof fn lemma_map_len(entries: Seq<(OutputIdentity, Output)>)
    requires
        ordered(entries),
    ensures
        entries_map(entries).dom().finite(),
        entries_map(entries).dom().len() == entries.len(),
{
    let ids = entries.map_values(|entry: (OutputIdentity, Output)| entry.0);
    assert(ids.no_duplicates()) by {
        assert forall|i: int, j: int| 0 <= i < ids.len() && 0 <= j < ids.len() && i != j implies ids[i]
            != ids[j] by {
            if i < j {
                assert(entries[i].0.0 < entries[j].0.0);
            } else {
                assert(entries[j].0.0 < entries[i].0.0);
            }
        }
    }
    ids.unique_seq_to_set();
    assert(entries_map(entries).dom() =~= ids.to_set()) by {
        assert forall|key: OutputIdentity| #[trigger] ids.to_set().contains(key) implies holds(
            entries,
            key,
        ) by {
            let j = choose|j: int| 0 <= j < ids.len() && ids[j] == key;
            assert(entries[j].0 == key);
        }
        assert forall|key: OutputIdentity| holds(entries, key) implies #[trigger] ids.to_set().contains(
            key,
        ) by {
            let j = choose|j: int| 0 <= j < entries.len() && entries[j].0 == key;
            assert(ids[j] == key);
        }
    }
}

/// A display that is attached and has been placed: somewhere a window can be shown.
pub open spec fn is_screen(output: Output) -> bool {
    output.present && output.position is Some
}

/// The area a placed display covers in the scene.
pub open spec fn screen_area(output: Output) -> Rect {
    Rect {
        x: output.position->0.x,
        y: output.position->0.y,
        width: output.info.size.width,
        height: output.info.size.height,
    }
}

/// Whether some attached, placed display overlaps `area`.
pub open spec fn reachable(outputs: Map<OutputIdentity, Output>, area: Rect) -> bool {
    exists|identity: OutputIdentity|
        #![trigger outputs[identity]]
        outputs.contains_key(identity) && is_screen(outputs[identity]) && rects_overlap(
            screen_area(outputs[identity]),
            area,
        )
}

/// Whether any display is attached and placed.
pub open spec fn has_screen(outputs: Map<OutputIdentity, Output>) -> bool {
    exists|identity: OutputIdentity|
        #![trigger outputs[identity]]
        outputs.contains_key(identity) && is_screen(outputs[identity])
}

/// The squared distance `area` moves to land on a placed display.
pub open spec fn rescue_distance(output: Output, area: Rect) -> int {
    let target = clamped_position(screen_area(output), area);
    (target.x - area.x) * (target.x - area.x) + (target.y - area.y) * (target.y - area.y)
}

/// `identity` is the display a stranded area is moved onto: no display needs a shorter move, and
/// every display with a lower identity needs a strictly longer one.
pub open spec fn is_nearest_screen(
    outputs: Map<OutputIdentity, Output>,
    identity: OutputIdentity,
    area: Rect,
) -> bool {
    &&& outputs.contains_key(identity)
    &&& is_screen(outputs[identity])
    &&& forall|other: OutputIdentity|
        #![trigger outputs[other]]
        outputs.contains_key(other) && is_screen(outputs[other]) ==> rescue_distance(
            outputs[identity],
            area,
        ) <= rescue_distance(outputs[other], area)
    &&& forall|other: OutputIdentity|
        #![trigger outputs[other]]
        outputs.contains_key(other) && is_screen(outputs[other]) && other.0 < identity.0
            ==> rescue_distance(outputs[identity], area) < rescue_distance(outputs[other], area)
}

/// Some listing names this identity.
pub open spec fn listed(listings: Seq<Listing>, identity: OutputIdentity) -> bool {
    exists|k: int| 0 <= k < listings.len() && listings[k].0 == identity
}

/// What one listing makes of the display it names: attached, reporting what the listing says,
/// and still where the shell last placed it if it was known before.
pub open spec fn attach_one(outputs: Map<OutputIdentity, Output>, listing: Listing) -> Map<
    OutputIdentity,
    Output,
> {
    let position = if outputs.contains_key(listing.0) {
        outputs[listing.0].position
    } else {
        None
    };
    outputs.insert(
        listing.0,
        Output { info: listing.2, source: listing.1, present: true, position },
    )
}

/// The displays after each listing has been taken in, in order.
pub open spec fn attach_all(outputs: Map<OutputIdentity, Output>, listings: Seq<Listing>) -> Map<
    OutputIdentity,
    Output,
>
    decreases listings.len(),
{
    if listings.len() == 0 {
        outputs
    } else {
        attach_one(attach_all(outputs, listings.drop_last()), listings.last())
    }
}

/// A display that is attached and not listed is detached; everything else about it is kept.
pub open spec fn detach_if_unlisted(output: Output, is_listed: bool) -> Output {
    if output.present && !is_listed {
        Output { present: false, ..output }
    } else {
        output
    }
}

/// Every attached display the listings leave out is detached.
pub open spec fn detach_unlisted(outputs: Map<OutputIdentity, Output>, listings: Seq<Listing>) -> Map<
    OutputIdentity,
    Output,
> {
    Map::new(
        |identity: OutputIdentity| outputs.contains_key(identity),
        |identity: OutputIdentity| detach_if_unlisted(outputs[identity], listed(listings, identity)),
    )
}

/// The displays after one whole topology change in which `listings` is everything attached.
pub open spec fn settle(outputs: Map<OutputIdentity, Output>, listings: Seq<Listing>) -> Map<
    OutputIdentity,
    Output,
> {
    detach_unlisted(attach_all(outputs, listings), listings)
}

/// The identities of the listings that `counts` picks out, each judged against the displays as
/// they stood just before it was taken in, in listing order.
pub open spec fn reported(
    outputs: Map<OutputIdentity, Output>,
    listings: Seq<Listing>,
    counts: spec_fn(Map<OutputIdentity, Output>, Listing) -> bool,
) -> Seq<OutputIdentity>
    decreases listings.len(),
{
    if listings.len() == 0 {
        Seq::empty()
    } else {
        let earlier = listings.drop_last();
        let rest = reported(outputs, earlier, counts);
        if counts(attach_all(outputs, earlier), listings.last()) {
            rest.push(listings.last().0)
        } else {
            rest
        }
    }
}

/// The listed display has never been seen.
pub open spec fn is_arrival(before: Map<OutputIdentity, Output>, listing: Listing) -> bool {
    !before.contains_key(listing.0)
}

/// The listed display is remembered and was absent.
pub open spec fn is_return(before: Map<OutputIdentity, Output>, listing: Listing) -> bool {
    before.contains_key(listing.0) && !before[listing.0].present
}

/// The listed display was attached and now reports something different.
pub open spec fn is_reconfiguration(before: Map<OutputIdentity, Output>, listing: Listing) -> bool {
    before.contains_key(listing.0) && before[listing.0].present && before[listing.0].info
        != listing.2
}

/// Displays the listings introduce that were never seen before, in listing order.
pub open spec fn arrivals(outputs: Map<OutputIdentity, Output>, listings: Seq<Listing>) -> Seq<
    OutputIdentity,
> {
    reported(outputs, listings, |before: Map<OutputIdentity, Output>, listing: Listing| is_arrival(before, listing))
}

/// Remembered, absent displays the listings bring back, in listing order.
pub open spec fn recognitions(outputs: Map<OutputIdentity, Output>, listings: Seq<Listing>) -> Seq<
    OutputIdentity,
> {
    reported(outputs, listings, |before: Map<OutputIdentity, Output>, listing: Listing| is_return(before, listing))
}

/// Attached displays the listings report differently, in listing order.
pub open spec fn reconfigurations(
    outputs: Map<OutputIdentity, Output>,
    listings: Seq<Listing>,
) -> Seq<OutputIdentity> {
    reported(
        outputs,
        listings,
        |before: Map<OutputIdentity, Output>, listing: Listing| is_reconfiguration(before, listing),
    )
}

/// The displays a topology change detaches: attached before it and left out of it.
pub open spec fn departs(
    outputs: Map<OutputIdentity, Output>,
    listings: Seq<Listing>,
    identity: OutputIdentity,
) -> bool {
    outputs.contains_key(identity) && outputs[identity].present && !listed(listings, identity)
}

/// Strictly increasing identities.
pub open spec fn increasing(identities: Seq<OutputIdentity>) -> bool {
    forall|a: int, b: int| 0 <= a < b < identities.len() ==> identities[a].0 < identities[b].0
}

proof fn lemma_attach_unlisted(
    outputs: Map<OutputIdentity, Output>,
    listings: Seq<Listing>,
    identity: OutputIdentity,
)
    requires
        !listed(listings, identity),
    ensures
        attach_all(outputs, listings).contains_key(identity) == outputs.contains_key(identity),
        outputs.contains_key(identity) ==> attach_all(outputs, listings)[identity]
            == outputs[identity],
    decreases listings.len(),
{
    if listings.len() > 0 {
        let earlier = listings.drop_last();
        assert(!listed(earlier, identity)) by {
            if listed(earlier, identity) {
                let k = choose|k: int| 0 <= k < earlier.len() && earlier[k].0 == identity;
                assert(listings[k].0 == identity);
            }
        }
        assert(listings[listings.len() - 1].0 != identity);
        lemma_attach_unlisted(outputs, earlier, identity);
    }
}

proof fn lemma_detach_entries(
    attached: Seq<(OutputIdentity, Output)>,
    settled: Seq<(OutputIdentity, Output)>,
    listings: Seq<Listing>,
)
    requires
        ordered(attached),
        settled.len() == attached.len(),
        forall|j: int|
            0 <= j < attached.len() ==> #[trigger] settled[j] == (
                attached[j].0,
                detach_if_unlisted(attached[j].1, listed(listings, attached[j].0)),
            ),
    ensures
        ordered(settled),
        entries_map(settled) =~= detach_unlisted(entries_map(attached), listings),
{
    assert(ordered(settled)) by {
        assert forall|a: int, b: int| 0 <= a < b < settled.len() implies settled[a].0.0
            < settled[b].0.0 by {
            assert(settled[a].0 == attached[a].0);
            assert(settled[b].0 == attached[b].0);
        }
    }
    let before = entries_map(attached);
    let after = entries_map(settled);
    let expected = detach_unlisted(before, listings);
    assert forall|key: OutputIdentity| #[trigger]
        after.contains_key(key) == expected.contains_key(key) by {
        if holds(settled, key) {
            let j = choose|j: int| 0 <= j < settled.len() && settled[j].0 == key;
            assert(attached[j].0 == key);
        }
        if holds(attached, key) {
            let j = choose|j: int| 0 <= j < attached.len() && attached[j].0 == key;
            assert(settled[j].0 == key);
        }
    }
    assert forall|key: OutputIdentity| after.contains_key(key) implies after[key]
        == expected[key] by {
        let j = choose|j: int| 0 <= j < settled.len() && settled[j].0 == key;
        lemma_entry_in_map(settled, j);
        assert(settled[j] == (
            attached[j].0,
            detach_if_unlisted(attached[j].1, listed(listings, attached[j].0)),
        ));
        lemma_entry_in_map(attached, j);
    }
}

/// Whether any listing names `identity`.
fn is_listed(listings: &[Listing], identity: OutputIdentity) -> (found: bool)
    ensures
        found == listed(listings@, identity),
{
    let mut k: usize = 0;
    while k < listings.len()
        invariant
            k <= listings@.len(),
            forall|j: int| 0 <= j < k ==> listings@[j].0 != identity,
        decreases listings@.len() - k,
    {
        if listings[k].0.0 == identity.0 {
            return true;
        }
        k = k + 1;
    }
    false
}

/// Every display this compositor has seen, and what it last knew about each.
///
/// An absent display is kept rather than dropped: dropping it is what makes a replug look like a
/// new screen and loses everything keyed to the old one.
#[derive(Clone, Debug)]
pub struct OutputSet {
    outputs: Vec<(OutputIdentity, Output)>,
}

impl View for OutputSet {
    type V = Map<OutputIdentity, Output>;

    closed spec fn view(&self) -> Map<OutputIdentity, Output> {
        entries_map(self.outputs@)
    }
}

impl OutputSet {
    /// The set's internal order is by identity, with no identity held twice.
    pub closed spec fn wf(&self) -> bool {
        ordered(self.outputs@)
    }

    pub fn new() -> (set: OutputSet)
        ensures
            set.wf(),
            set@ == Map::<OutputIdentity, Output>::empty(),
    {
        let set = OutputSet { outputs: Vec::new() };
        assert(set@ =~= Map::<OutputIdentity, Output>::empty());
        set
    }

    /// Apply one whole topology change and report what it did.
    ///
    /// `present` is the complete set of attached displays afterwards, with what each reports.
    /// Anything known and not listed has gone, and is remembered rather than dropped. A listed
    /// display that was already attached and reports something different is reconfigured, never
    /// detached and reattached.
    pub fn apply(&mut self, present: &[Listing]) -> (delta: TopologyDelta)
        requires
            old(self).wf(),
        ensures
            final(self).wf(),
            final(self)@ == settle(old(self)@, present@),
            delta.arrived@ == arrivals(old(self)@, present@),
            delta.returned@ == recognitions(old(self)@, present@),
            delta.reconfigured@ == reconfigurations(old(self)@, present@),
            increasing(delta.departed@),
            forall|identity: OutputIdentity|
                delta.departed@.contains(identity) <==> departs(old(self)@, present@, identity),
    {
        let ghost before = self@;
        let mut arrived: Vec<OutputIdentity> = Vec::new();
        let mut returned: Vec<OutputIdentity> = Vec::new();
        let mut reconfigured: Vec<OutputIdentity> = Vec::new();
        let mut k: usize = 0;
        while k < present.len()
            invariant
                k <= present@.len(),
                ordered(self.outputs@),
                self@ == attach_all(before, present@.take(k as int)),
                arrived@ == arrivals(before, present@.take(k as int)),
                returned@ == recognitions(before, present@.take(k as int)),
                reconfigured@ == reconfigurations(before, present@.take(k as int)),
            decreases present@.len() - k,
        {
            let listing = present[k];
            let ghost taken = present@.take(k as int);
            let ghost earlier = self@;
            proof {
                assert(present@.take(k + 1).drop_last() =~= taken);
                assert(present@.take(k + 1).last() == listing);
            }
            match self.locate(listing.0) {
                Ok(i) => {
                    let entry = self.outputs[i];
                    proof {
                        lemma_entry_in_map(self.outputs@, i as int);
                    }
                    if entry.1.present {
                        if entry.1.info != listing.2 {
                            reconfigured.push(listing.0);
                        }
                    } else {
                        returned.push(listing.0);
                    }
                    let updated = Output {
                        info: listing.2,
                        source: listing.1,
                        present: true,
                        position: entry.1.position,
                    };
                    proof {
                        lemma_update_entry(self.outputs@, i as int, updated);
                    }
                    self.outputs.set(i, (entry.0, updated));
                },
                Err(position) => {
                    let created = Output {
                        info: listing.2,
                        source: listing.1,
                        present: true,
                        position: None,
                    };
                    proof {
                        lemma_insert_entry(self.outputs@, position as int, listing.0, created);
                    }
                    self.outputs.insert(position, (listing.0, created));
                    arrived.push(listing.0);
                },
            }
            proof {
                assert(self@ =~= attach_one(earlier, listing));
            }
            k = k + 1;
        }
        proof {
            assert(present@.take(present@.len() as int) =~= present@);
        }
        let ghost attached = self.outputs@;
        let mut departed: Vec<OutputIdentity> = Vec::new();
        let ghost mut origin: Seq<int> = Seq::empty();
        let mut i: usize = 0;
        while i < self.outputs.len()
            invariant
                i <= self.outputs@.len(),
                self.outputs@.len() == attached.len(),
                ordered(attached),
                forall|j: int|
                    0 <= j < i ==> #[trigger] self.outputs@[j] == (
                        attached[j].0,
                        detach_if_unlisted(attached[j].1, listed(present@, attached[j].0)),
                    ),
                forall|j: int| i <= j < attached.len() ==> #[trigger] self.outputs@[j] == attached[j],
                origin.len() == departed@.len(),
                forall|a: int|
                    0 <= a < departed@.len() ==> {
                        &&& 0 <= #[trigger] origin[a] < i
                        &&& attached[origin[a]].0 == departed@[a]
                        &&& attached[origin[a]].1.present
                        &&& !listed(present@, departed@[a])
                    },
                forall|a: int, b: int| 0 <= a < b < origin.len() ==> origin[a] < origin[b],
                forall|j: int|
                    0 <= j < i && #[trigger] attached[j].1.present && !listed(present@, attached[j].0)
                        ==> departed@.contains(attached[j].0),
            decreases attached.len() - i,
        {
            let entry = self.outputs[i];
            if entry.1.present && !is_listed(present, entry.0) {
                let ghost earlier = departed@;
                self.outputs.set(i, (entry.0, Output { present: false, ..entry.1 }));
                departed.push(entry.0);
                proof {
                    origin = origin.push(i as int);
                    assert forall|j: int|
                        0 <= j < i + 1 && #[trigger] attached[j].1.present && !listed(
                            present@,
                            attached[j].0,
                        ) implies departed@.contains(attached[j].0) by {
                        if j < i {
                            let a = choose|a: int| 0 <= a < earlier.len() && earlier[a] == attached[j].0;
                            assert(departed@[a] == attached[j].0);
                        } else {
                            assert(departed@[departed@.len() - 1] == attached[j].0);
                        }
                    }
                }
            }
            i = i + 1;
        }
        proof {
            lemma_detach_entries(attached, self.outputs@, present@);
            assert forall|a: int, b: int| 0 <= a < b < departed@.len() implies departed@[a].0
                < departed@[b].0 by {
                assert(origin[a] < origin[b]);
            }
            assert forall|identity: OutputIdentity|
                departed@.contains(identity) <==> departs(before, present@, identity) by {
                if departed@.contains(identity) {
                    let a = choose|a: int| 0 <= a < departed@.len() && departed@[a] == identity;
                    assert(0 <= origin[a] < i);
                    lemma_entry_in_map(attached, origin[a]);
                    lemma_attach_unlisted(before, present@, identity);
                }
                if departs(before, present@, identity) {
                    lemma_attach_unlisted(before, present@, identity);
                    let j = choose|j: int| 0 <= j < attached.len() && attached[j].0 == identity;
                    lemma_entry_in_map(attached, j);
                }
            }
        }
        TopologyDelta { arrived, returned, departed, reconfigured }
    }

    /// Where `identity` sits in the ordered entries, or where it would be inserted.
    fn locate(&self, identity: OutputIdentity) -> (found: Result<usize, usize>)
        requires
            self.wf(),
        ensures
            found matches Ok(i) ==> i < self.outputs@.len() && self.outputs@[i as int].0 == identity,
            found matches Err(p) ==> {
                &&& p <= self.outputs@.len()
                &&& !holds(self.outputs@, identity)
                &&& forall|j: int| 0 <= j < p ==> self.outputs@[j].0.0 < identity.0
                &&& forall|j: int| p <= j < self.outputs@.len() ==> identity.0 < self.outputs@[j].0.0
            },
    {
        let mut i: usize = 0;
        while i < self.outputs.len()
            invariant
                i <= self.outputs@.len(),
                ordered(self.outputs@),
                forall|j: int| 0 <= j < i ==> self.outputs@[j].0.0 < identity.0,
            decreases self.outputs@.len() - i,
        {
            let current = self.outputs[i].0;
            if current.0 == identity.0 {
                return Ok(i);
            }
            if current.0 > identity.0 {
                proof {
                    assert forall|j: int| i <= j < self.outputs@.len() implies identity.0
                        < self.outputs@[j].0.0 by {
                        if j > i {
                            assert(self.outputs@[i as int].0.0 < self.outputs@[j].0.0);
                        }
                    }
                }
                return Err(i);
            }
            i = i + 1;
        }
        Err(i)
    }

    /// Place a display in the scene. Where displays sit relative to one another is the shell's
    /// arrangement. Returns whether the display is known.
    pub fn place(&mut self, identity: OutputIdentity, position: Point) -> (known: bool)
        requires
            old(self).wf(),
        ensures
            final(self).wf(),
            known == old(self)@.contains_key(identity),
            known ==> final(self)@ == old(self)@.insert(
                identity,
                Output { position: Some(position), ..old(self)@[identity] },
            ),
            !known ==> final(self)@ == old(self)@,
    {
        match self.locate(identity) {
            Ok(i) => {
                let entry = self.outputs[i];
                let updated = Output { position: Some(position), ..entry.1 };
                proof {
                    lemma_entry_in_map(self.outputs@, i as int);
                    lemma_update_entry(self.outputs@, i as int, updated);
                }
                self.outputs.set(i, (entry.0, updated));
                true
            },
            Err(_) => false,
        }
    }

    /// The area a display occupies in the scene, if it is present and placed.
    pub fn area(&self, identity: OutputIdentity) -> (area: Option<Rect>)
        requires
            self.wf(),
        ensures
            area is Some <==> (self@.contains_key(identity) && is_screen(self@[identity])),
            area matches Some(rect) ==> rect == screen_area(self@[identity]),
    {
        match self.locate(identity) {
            Ok(i) => {
                proof {
                    lemma_entry_in_map(self.outputs@, i as int);
                }
                self.area_at(i)
            },
            Err(_) => None,
        }
    }

    fn area_at(&self, i: usize) -> (area: Option<Rect>)
        requires
            i < self.outputs@.len(),
        ensures
            area is Some <==> is_screen(self.outputs@[i as int].1),
            area matches Some(rect) ==> rect == screen_area(self.outputs@[i as int].1),
    {
        let output = self.outputs[i].1;
        if !output.present {
            return None;
        }
        match output.position {
            Some(position) => Some(
                Rect {
                    x: position.x,
                    y: position.y,
                    width: output.info.size.width,
                    height: output.info.size.height,
                },
            ),
            None => None,
        }
    }

    /// Whether a rectangle overlaps any attached, placed display: nothing a user owns may end up
    /// somewhere they cannot reach it.
    pub fn is_reachable(&self, area: Rect) -> (reachable_now: bool)
        requires
            self.wf(),
        ensures
            reachable_now == reachable(self@, area),
    {
        let mut i: usize = 0;
        while i < self.outputs.len()
            invariant
                i <= self.outputs@.len(),
                ordered(self.outputs@),
                forall|j: int|
                    0 <= j < i ==> !(is_screen(#[trigger] self.outputs@[j].1) && rects_overlap(
                        screen_area(self.outputs@[j].1),
                        area,
                    )),
            decreases self.outputs@.len() - i,
        {
            match self.area_at(i) {
                Some(screen) => {
                    if overlaps(screen, area) {
                        proof {
                            lemma_entry_in_map(self.outputs@, i as int);
                            assert(self@[self.outputs@[i as int].0] == self.outputs@[i as int].1);
                        }
                        return true;
                    }
                },
                None => {},
            }
            i = i + 1;
        }
        proof {
            assert forall|identity: OutputIdentity|
                #![trigger self@[identity]]
                self@.contains_key(identity) && is_screen(self@[identity]) implies !rects_overlap(
                screen_area(self@[identity]),
                area,
            ) by {
                let j = choose|j: int|
                    0 <= j < self.outputs@.len() && self.outputs@[j].0 == identity;
                lemma_entry_in_map(self.outputs@, j);
                assert(!(is_screen(self.outputs@[j].1) && rects_overlap(
                    screen_area(self.outputs@[j].1),
                    area,
                )));
            }
        }
        false
    }

    /// Move `area` the shortest distance that makes it reachable, or `None` when no display is
    /// attached and placed to move it onto.
    ///
    /// An area already reachable stays where it is. Otherwise it moves onto the display that
    /// needs the shortest move, the lowest identity among equals, which keeps a window near where
    /// its user last saw it instead of collecting everything onto one screen.
    pub fn nearest_reachable(&self, area: Rect) -> (target: Option<Point>)
        requires
            self.wf(),
        ensures
            reachable(self@, area) ==> target == Some(Point { x: area.x, y: area.y }),
            !reachable(self@, area) && !has_screen(self@) ==> target is None,
            !reachable(self@, area) && has_screen(self@) ==> exists|identity: OutputIdentity|
                #[trigger] is_nearest_screen(self@, identity, area) && target == Some(
                    clamped_position(screen_area(self@[identity]), area),
                ),
    {
        if self.is_reachable(area) {
            return Some(Point { x: area.x, y: area.y });
        }
        let mut best: Option<(usize, Point, i128)> = None;
        let mut i: usize = 0;
        while i < self.outputs.len()
            invariant
                i <= self.outputs@.len(),
                ordered(self.outputs@),
                best is None ==> forall|j: int|
                    0 <= j < i ==> !is_screen(#[trigger] self.outputs@[j].1),
                best matches Some(chosen) ==> {
                    &&& chosen.0 < i
                    &&& is_screen(self.outputs@[chosen.0 as int].1)
                    &&& chosen.1 == clamped_position(
                        screen_area(self.outputs@[chosen.0 as int].1),
                        area,
                    )
                    &&& chosen.2 == rescue_distance(self.outputs@[chosen.0 as int].1, area)
                    &&& forall|j: int|
                        0 <= j < i && is_screen(#[trigger] self.outputs@[j].1) ==> chosen.2
                            <= rescue_distance(self.outputs@[j].1, area)
                    &&& forall|j: int|
                        0 <= j < chosen.0 && is_screen(#[trigger] self.outputs@[j].1) ==> chosen.2
                            < rescue_distance(self.outputs@[j].1, area)
                },
            decreases self.outputs@.len() - i,
        {
            match self.area_at(i) {
                Some(screen) => {
                    let candidate = clamp_into(screen, area);
                    let dx: i128 = candidate.x as i128 - area.x as i128;
                    let dy: i128 = candidate.y as i128 - area.y as i128;
                    proof {
                        assert(dx * dx <= 0x1_0000_0000_0000_0000) by (nonlinear_arith)
                            requires
                                -0x1_0000_0000 <= dx <= 0x1_0000_0000,
                        ;
                        assert(dy * dy <= 0x1_0000_0000_0000_0000) by (nonlinear_arith)
                            requires
                                -0x1_0000_0000 <= dy <= 0x1_0000_0000,
                        ;
                        assert(dx * dx >= 0 && dy * dy >= 0) by (nonlinear_arith);
                    }
                    let distance: i128 = dx * dx + dy * dy;
                    match best {
                        None => {
                            best = Some((i, candidate, distance));
                        },
                        Some(chosen) => {
                            if distance < chosen.2 {
                                best = Some((i, candidate, distance));
                            }
                        },
                    }
                },
                None => {},
            }
            i = i + 1;
        }
        match best {
            None => {
                proof {
                    assert forall|identity: OutputIdentity|
                        #![trigger self@[identity]]
                        self@.contains_key(identity) implies !is_screen(self@[identity]) by {
                        let j = choose|j: int|
                            0 <= j < self.outputs@.len() && self.outputs@[j].0 == identity;
                        lemma_entry_in_map(self.outputs@, j);
                        assert(!is_screen(self.outputs@[j].1));
                    }
                }
                None
            },
            Some(chosen) => {
                let ghost b = chosen.0 as int;
                let ghost identity = self.outputs@[b].0;
                proof {
                    lemma_entry_in_map(self.outputs@, b);
                    assert forall|other: OutputIdentity|
                        #![trigger self@[other]]
                        self@.contains_key(other) && is_screen(self@[other]) implies rescue_distance(
                        self@[identity],
                        area,
                    ) <= rescue_distance(self@[other], area) && (other.0 < identity.0
                        ==> rescue_distance(self@[identity], area) < rescue_distance(
                        self@[other],
                        area,
                    )) by {
                        let j = choose|j: int|
                            0 <= j < self.outputs@.len() && self.outputs@[j].0 == other;
                        lemma_entry_in_map(self.outputs@, j);
                        assert(is_screen(self.outputs@[j].1));
                        if other.0 < identity.0 && j >= b {
                            if j > b {
                                assert(self.outputs@[b].0.0 < self.outputs@[j].0.0);
                            }
                        }
                    }
                    assert(is_nearest_screen(self@, identity, area));
                }
                Some(chosen.1)
            },
        }
    }

    /// What an identity was derived from, and therefore how far it can be trusted.
    pub fn source(&self, identity: OutputIdentity) -> (source: Option<IdentitySource>)
        requires
            self.wf(),
        ensures
            source is Some <==> self@.contains_key(identity),
            source matches Some(s) ==> s == self@[identity].source,
    {
        match self.locate(identity) {
            Ok(i) => {
                proof {
                    lemma_entry_in_map(self.outputs@, i as int);
                }
                Some(self.outputs[i].1.source)
            },
            Err(_) => None,
        }
    }

    /// Whether this display is currently attached.
    pub fn is_present(&self, identity: OutputIdentity) -> (present: bool)
        requires
            self.wf(),
        ensures
            present == (self@.contains_key(identity) && self@[identity].present),
    {
        match self.locate(identity) {
            Ok(i) => {
                proof {
                    lemma_entry_in_map(self.outputs@, i as int);
                }
                self.outputs[i].1.present
            },
            Err(_) => false,
        }
    }

    /// Whether this display has ever been seen, present or not.
    pub fn is_known(&self, identity: OutputIdentity) -> (known: bool)
        requires
            self.wf(),
        ensures
            known == self@.contains_key(identity),
    {
        match self.locate(identity) {
            Ok(i) => {
                proof {
                    lemma_entry_in_map(self.outputs@, i as int);
                }
                true
            },
            Err(_) => false,
        }
    }

    /// What a display last reported, whether or not it is attached now.
    pub fn info(&self, identity: OutputIdentity) -> (info: Option<OutputInfo>)
        requires
            self.wf(),
        ensures
            info is Some <==> self@.contains_key(identity),
            info matches Some(i) ==> i == self@[identity].info,
    {
        match self.locate(identity) {
            Ok(i) => {
                proof {
                    lemma_entry_in_map(self.outputs@, i as int);
                }
                Some(self.outputs[i].1.info)
            },
            Err(_) => None,
        }
    }

    /// Every display currently attached, in increasing identity order.
    pub fn present(&self) -> (attached: Vec<OutputIdentity>)
        requires
            self.wf(),
        ensures
            forall|a: int, b: int| 0 <= a < b < attached@.len() ==> attached@[a].0 < attached@[b].0,
            forall|identity: OutputIdentity|
                attached@.contains(identity) <==> (self@.contains_key(identity)
                    && self@[identity].present),
    {
        let mut attached: Vec<OutputIdentity> = Vec::new();
        let ghost mut origin: Seq<int> = Seq::empty();
        let mut i: usize = 0;
        while i < self.outputs.len()
            invariant
                i <= self.outputs@.len(),
                ordered(self.outputs@),
                origin.len() == attached@.len(),
                forall|a: int|
                    0 <= a < attached@.len() ==> {
                        &&& 0 <= #[trigger] origin[a] < i
                        &&& self.outputs@[origin[a]].0 == attached@[a]
                        &&& self.outputs@[origin[a]].1.present
                    },
                forall|a: int, b: int| 0 <= a < b < origin.len() ==> origin[a] < origin[b],
                forall|j: int|
                    0 <= j < i && #[trigger] self.outputs@[j].1.present ==> attached@.contains(
                        self.outputs@[j].0,
                    ),
            decreases self.outputs@.len() - i,
        {
            let entry = self.outputs[i];
            let ghost before = attached@;
            if entry.1.present {
                attached.push(entry.0);
                proof {
                    origin = origin.push(i as int);
                    assert forall|j: int|
                        0 <= j < i + 1 && #[trigger] self.outputs@[j].1.present implies attached@.contains(
                        self.outputs@[j].0,
                    ) by {
                        if j < i {
                            let a = choose|a: int| 0 <= a < before.len() && before[a] == self.outputs@[j].0;
                            assert(attached@[a] == self.outputs@[j].0);
                        } else {
                            assert(attached@[attached@.len() - 1] == self.outputs@[j].0);
                        }
                    }
                }
            }
            i = i + 1;
        }
        proof {
            assert forall|a: int, b: int| 0 <= a < b < attached@.len() implies attached@[a].0
                < attached@[b].0 by {
                assert(origin[a] < origin[b]);
            }
            assert forall|identity: OutputIdentity| attached@.contains(identity) <==> (
            self@.contains_key(identity) && self@[identity].present) by {
                if attached@.contains(identity) {
                    let a = choose|a: int| 0 <= a < attached@.len() && attached@[a] == identity;
                    assert(0 <= origin[a] < i);
                    lemma_entry_in_map(self.outputs@, origin[a]);
                }
                if self@.contains_key(identity) && self@[identity].present {
                    let j = choose|j: int|
                        0 <= j < self.outputs@.len() && self.outputs@[j].0 == identity;
                    lemma_entry_in_map(self.outputs@, j);
                }
            }
        }
        attached
    }

    /// How many displays are remembered, attached or not.
    pub fn len(&self) -> (count: usize)
        requires
            self.wf(),
        ensures
            self@.dom().finite(),
            count == self@.dom().len(),
    {
        proof {
            lemma_map_len(self.outputs@);
        }
        self.outputs.len()
    }

    pub fn is_empty(&self) -> (empty: bool)
        requires
            self.wf(),
        ensures
            empty == (self@.dom().len() == 0),
    {
        proof {
            lemma_map_len(self.outputs@);
        }
        self.outputs.len() == 0
    }

    /// Forget a display entirely.
    ///
    /// Not something unplugging does: anything keyed to this identity is lost, so it is for a
    /// caller that means to discard the memory.
    pub fn forget(&mut self, identity: OutputIdentity) -> (known: bool)
        requires
            old(self).wf(),
        ensures
            final(self).wf(),
            known == old(self)@.contains_key(identity),
            final(self)@ == old(self)@.remove(identity),
    {
        match self.locate(identity) {
            Ok(i) => {
                proof {
                    lemma_entry_in_map(self.outputs@, i as int);
                    lemma_remove_entry(self.outputs@, i as int);
                }
                self.outputs.remove(i);
                true
            },
            Err(_) => {
                assert(self@.remove(identity) =~= self@);
                false
            },
        }
    }
}

/// The display is attached and reports what the listing says, from the source it gives.
pub open spec fn reports_listing(output: Output, listing: Listing) -> bool {
    output.present && output.info == listing.2 && output.source == listing.1
}

impl Default for OutputSet {
    fn default() -> (set: OutputSet)
        ensures
            set.wf(),
            set@ == Map::<OutputIdentity, Output>::empty(),
    {
        OutputSet::new()
    }
}

/// Whether the `k`th listing is one that `counts` picks out.
pub open spec fn counted_at(
    outputs: Map<OutputIdentity, Output>,
    listings: Seq<Listing>,
    counts: spec_fn(Map<OutputIdentity, Output>, Listing) -> bool,
    k: int,
) -> bool {
    counts(attach_all(outputs, listings.take(k)), listings[k])
}

/// No two listings name the same display.
pub open spec fn distinct_listings(listings: Seq<Listing>) -> bool {
    forall|a: int, b: int| 0 <= a < b < listings.len() ==> listings[a].0 != listings[b].0
}

proof fn lemma_listed_split(listings: Seq<Listing>, identity: OutputIdentity)
    requires
        listings.len() > 0,
    ensures
        listed(listings, identity) <==> (listed(listings.drop_last(), identity)
            || listings.last().0 == identity),
{
    let earlier = listings.drop_last();
    if listed(listings, identity) && listings.last().0 != identity {
        let k = choose|k: int| 0 <= k < listings.len() && listings[k].0 == identity;
        assert(earlier[k].0 == identity);
    }
    if listed(earlier, identity) {
        let k = choose|k: int| 0 <= k < earlier.len() && earlier[k].0 == identity;
        assert(listings[k].0 == identity);
    }
    if listings.last().0 == identity {
        assert(listings[listings.len() - 1].0 == identity);
    }
}

proof fn lemma_attach_shape(
    outputs: Map<OutputIdentity, Output>,
    listings: Seq<Listing>,
    identity: OutputIdentity,
)
    ensures
        attach_all(outputs, listings).contains_key(identity) <==> (outputs.contains_key(identity)
            || listed(listings, identity)),
        attach_all(outputs, listings).contains_key(identity) ==> attach_all(
            outputs,
            listings,
        )[identity].position == (if outputs.contains_key(identity) {
            outputs[identity].position
        } else {
            None
        }),
        listed(listings, identity) ==> attach_all(outputs, listings)[identity].present,
        !listed(listings, identity) && outputs.contains_key(identity) ==> attach_all(
            outputs,
            listings,
        )[identity] == outputs[identity],
    decreases listings.len(),
{
    if listings.len() > 0 {
        lemma_attach_shape(outputs, listings.drop_last(), identity);
        lemma_listed_split(listings, identity);
    }
}

proof fn lemma_attach_last(outputs: Map<OutputIdentity, Output>, listings: Seq<Listing>, k: int)
    requires
        0 <= k < listings.len(),
        forall|j: int| k < j < listings.len() ==> listings[j].0 != listings[k].0,
    ensures
        attach_all(outputs, listings).contains_key(listings[k].0),
        attach_all(outputs, listings)[listings[k].0].info == listings[k].2,
        attach_all(outputs, listings)[listings[k].0].source == listings[k].1,
    decreases listings.len(),
{
    let earlier = listings.drop_last();
    if k < listings.len() - 1 {
        assert(earlier[k] == listings[k]);
        assert forall|j: int| k < j < earlier.len() implies earlier[j].0 != earlier[k].0 by {
            assert(earlier[j] == listings[j]);
        }
        lemma_attach_last(outputs, earlier, k);
        assert(listings.last().0 != listings[k].0);
    }
}

proof fn lemma_counted_in_earlier(
    outputs: Map<OutputIdentity, Output>,
    listings: Seq<Listing>,
    counts: spec_fn(Map<OutputIdentity, Output>, Listing) -> bool,
    k: int,
)
    requires
        0 <= k < listings.len() - 1,
    ensures
        counted_at(outputs, listings.drop_last(), counts, k) == counted_at(
            outputs,
            listings,
            counts,
            k,
        ),
        listings.drop_last()[k] == listings[k],
{
    assert(listings.drop_last().take(k) =~= listings.take(k));
}

proof fn lemma_reported_members(
    outputs: Map<OutputIdentity, Output>,
    listings: Seq<Listing>,
    counts: spec_fn(Map<OutputIdentity, Output>, Listing) -> bool,
    identity: OutputIdentity,
)
    ensures
        reported(outputs, listings, counts).contains(identity) <==> exists|k: int|
            0 <= k < listings.len() && #[trigger] counted_at(outputs, listings, counts, k)
                && listings[k].0 == identity,
    decreases listings.len(),
{
    if listings.len() == 0 {
        assert(reported(outputs, listings, counts) =~= Seq::<OutputIdentity>::empty());
    } else {
        let earlier = listings.drop_last();
        let last = listings.len() - 1;
        lemma_reported_members(outputs, earlier, counts, identity);
        let rest = reported(outputs, earlier, counts);
        let all = reported(outputs, listings, counts);
        let counted_last = counted_at(outputs, listings, counts, last);
        assert(counted_last == counts(attach_all(outputs, earlier), listings.last())) by {
            assert(listings.take(last) =~= earlier);
        }
        assert(all == if counted_last {
            rest.push(listings.last().0)
        } else {
            rest
        });
        if all.contains(identity) {
            if rest.contains(identity) {
                let k = choose|k: int|
                    0 <= k < earlier.len() && #[trigger] counted_at(outputs, earlier, counts, k)
                        && earlier[k].0 == identity;
                lemma_counted_in_earlier(outputs, listings, counts, k);
                assert(counted_at(outputs, listings, counts, k) && listings[k].0 == identity);
            } else {
                let a = choose|a: int| 0 <= a < all.len() && all[a] == identity;
                if a < rest.len() {
                    assert(rest[a] == identity);
                }
                assert(counted_at(outputs, listings, counts, last) && listings[last].0 == identity);
            }
        }
        if exists|k: int|
            0 <= k < listings.len() && #[trigger] counted_at(outputs, listings, counts, k)
                && listings[k].0 == identity {
            let k = choose|k: int|
                0 <= k < listings.len() && #[trigger] counted_at(outputs, listings, counts, k)
                    && listings[k].0 == identity;
            if k < last {
                lemma_counted_in_earlier(outputs, listings, counts, k);
                assert(counted_at(outputs, earlier, counts, k) && earlier[k].0 == identity);
                assert(rest.contains(identity));
                let a = choose|a: int| 0 <= a < rest.len() && rest[a] == identity;
                assert(all[a] == identity);
            } else {
                assert(all[all.len() - 1] == identity);
            }
        }
    }
}

proof fn lemma_before_distinct(
    outputs: Map<OutputIdentity, Output>,
    listings: Seq<Listing>,
    k: int,
)
    requires
        distinct_listings(listings),
        0 <= k < listings.len(),
    ensures
        attach_all(outputs, listings.take(k)).contains_key(listings[k].0) == outputs.contains_key(
            listings[k].0,
        ),
        outputs.contains_key(listings[k].0) ==> attach_all(outputs, listings.take(k))[listings[k].0]
            == outputs[listings[k].0],
{
    let earlier = listings.take(k);
    assert(!listed(earlier, listings[k].0)) by {
        if listed(earlier, listings[k].0) {
            let j = choose|j: int| 0 <= j < earlier.len() && earlier[j].0 == listings[k].0;
            assert(listings[j].0 == listings[k].0);
        }
    }
    lemma_attach_unlisted(outputs, earlier, listings[k].0);
}

/// A topology change never forgets a display: everything known before is known after, still
/// where the shell placed it, and the only displays added are the listed ones.
pub proof fn topology_keeps_every_known_display(
    outputs: Map<OutputIdentity, Output>,
    listings: Seq<Listing>,
)
    ensures
        forall|identity: OutputIdentity|
            #[trigger] settle(outputs, listings).contains_key(identity) <==> (outputs.contains_key(
                identity,
            ) || listed(listings, identity)),
        forall|identity: OutputIdentity|
            outputs.contains_key(identity) ==> #[trigger] settle(
                outputs,
                listings,
            )[identity].position == outputs[identity].position,
{
    assert forall|identity: OutputIdentity|
        #[trigger] settle(outputs, listings).contains_key(identity) <==> (outputs.contains_key(
            identity,
        ) || listed(listings, identity)) by {
        lemma_attach_shape(outputs, listings, identity);
    }
    assert forall|identity: OutputIdentity| outputs.contains_key(identity) implies #[trigger] settle(
        outputs,
        listings,
    )[identity].position == outputs[identity].position by {
        lemma_attach_shape(outputs, listings, identity);
    }
}

/// After a topology change the attached displays are exactly the listed ones.
pub proof fn attached_exactly_when_listed(
    outputs: Map<OutputIdentity, Output>,
    listings: Seq<Listing>,
)
    ensures
        forall|identity: OutputIdentity|
            #![trigger settle(outputs, listings).contains_key(identity)]
            #![trigger listed(listings, identity)]
            (settle(outputs, listings).contains_key(identity) && settle(
                outputs,
                listings,
            )[identity].present) <==> listed(listings, identity),
{
    assert forall|identity: OutputIdentity|
        #![trigger settle(outputs, listings).contains_key(identity)]
        #![trigger listed(listings, identity)]
        (settle(outputs, listings).contains_key(identity) && settle(
            outputs,
            listings,
        )[identity].present) <==> listed(listings, identity) by {
        lemma_attach_shape(outputs, listings, identity);
        let attached = attach_all(outputs, listings);
        if attached.contains_key(identity) {
            assert(settle(outputs, listings)[identity] == detach_if_unlisted(
                attached[identity],
                listed(listings, identity),
            ));
        }
    }
}

/// A display reports what its last listing says, and keeps the identity source that listing
/// gave it.
pub proof fn listing_sets_what_a_display_reports(
    outputs: Map<OutputIdentity, Output>,
    listings: Seq<Listing>,
    k: int,
)
    requires
        0 <= k < listings.len(),
        forall|j: int| k < j < listings.len() ==> listings[j].0 != listings[k].0,
    ensures
        settle(outputs, listings).contains_key(listings[k].0),
        settle(outputs, listings)[listings[k].0].info == listings[k].2,
        settle(outputs, listings)[listings[k].0].source == listings[k].1,
{
    lemma_attach_last(outputs, listings, k);
}

/// When no display is listed twice, each listed display is reported once for what it was:
/// a display never seen before arrives, a remembered absent one returns rather than arriving, and
/// one that stayed attached is reconfigured exactly when it reports something new, and never
/// departs or returns.
pub proof fn each_listing_is_reported_for_what_it_was(
    outputs: Map<OutputIdentity, Output>,
    listings: Seq<Listing>,
    k: int,
)
    requires
        distinct_listings(listings),
        0 <= k < listings.len(),
    ensures
        arrivals(outputs, listings).contains(listings[k].0) <==> !outputs.contains_key(
            listings[k].0,
        ),
        recognitions(outputs, listings).contains(listings[k].0) <==> (outputs.contains_key(
            listings[k].0,
        ) && !outputs[listings[k].0].present),
        reconfigurations(outputs, listings).contains(listings[k].0) <==> (outputs.contains_key(
            listings[k].0,
        ) && outputs[listings[k].0].present && outputs[listings[k].0].info != listings[k].2),
        !departs(outputs, listings, listings[k].0),
{
    let identity = listings[k].0;
    let arrival = |before: Map<OutputIdentity, Output>, listing: Listing|
        is_arrival(before, listing);
    let recognition = |before: Map<OutputIdentity, Output>, listing: Listing|
        is_return(before, listing);
    let reconfiguration = |before: Map<OutputIdentity, Output>, listing: Listing|
        is_reconfiguration(before, listing);
    lemma_reported_members(outputs, listings, arrival, identity);
    lemma_reported_members(outputs, listings, recognition, identity);
    lemma_reported_members(outputs, listings, reconfiguration, identity);
    lemma_before_distinct(outputs, listings, k);
    assert forall|j: int| 0 <= j < listings.len() && listings[j].0 == identity implies j == k by {
        if j < k || j > k {
            assert(listings[j].0 != listings[k].0);
        }
    }
    assert(counted_at(outputs, listings, arrival, k) == !outputs.contains_key(identity));
    assert(counted_at(outputs, listings, recognition, k) == (outputs.contains_key(identity)
        && !outputs[identity].present));
    assert(counted_at(outputs, listings, reconfiguration, k) == (outputs.contains_key(identity)
        && outputs[identity].present && outputs[identity].info != listings[k].2));
    assert(listed(listings, identity));
}

/// Applying the same topology again, when no display is listed twice, changes nothing and
/// reports nothing.
pub proof fn reapplying_a_topology_changes_nothing(
    outputs: Map<OutputIdentity, Output>,
    listings: Seq<Listing>,
)
    requires
        distinct_listings(listings),
    ensures
        settle(settle(outputs, listings), listings) == settle(outputs, listings),
        arrivals(settle(outputs, listings), listings).len() == 0,
        recognitions(settle(outputs, listings), listings).len() == 0,
        reconfigurations(settle(outputs, listings), listings).len() == 0,
        forall|identity: OutputIdentity|
            !#[trigger] departs(settle(outputs, listings), listings, identity),
{
    let settled = settle(outputs, listings);
    attached_exactly_when_listed(outputs, listings);
    assert forall|k: int| 0 <= k < listings.len() implies #[trigger] settled.contains_key(
        listings[k].0,
    ) && reports_listing(settled[listings[k].0], listings[k]) by {
        assert forall|j: int| k < j < listings.len() implies listings[j].0 != listings[k].0 by {}
        assert(listings[k].0 == listings[k].0);
        assert(listed(listings, listings[k].0));
        lemma_attach_last(outputs, listings, k);
        lemma_attach_shape(outputs, listings, listings[k].0);
    }
    lemma_attach_fixed(settled, listings, listings.len() as int);
    assert(listings.take(listings.len() as int) =~= listings);
    assert(settle(settled, listings) =~= settled);
    let arrival = |before: Map<OutputIdentity, Output>, listing: Listing|
        is_arrival(before, listing);
    let recognition = |before: Map<OutputIdentity, Output>, listing: Listing|
        is_return(before, listing);
    let reconfiguration = |before: Map<OutputIdentity, Output>, listing: Listing|
        is_reconfiguration(before, listing);
    assert forall|k: int|
        #![trigger counted_at(settled, listings, arrival, k)]
        #![trigger counted_at(settled, listings, recognition, k)]
        #![trigger counted_at(settled, listings, reconfiguration, k)]
        0 <= k < listings.len() implies !counted_at(settled, listings, arrival, k) && !counted_at(
            settled,
            listings,
            recognition,
            k,
        ) && !counted_at(settled, listings, reconfiguration, k) by {
        lemma_attach_fixed(settled, listings, k);
        let listing = listings[k];
        assert(settled.contains_key(listing.0));
        assert(reports_listing(settled[listing.0], listing));
        let before = attach_all(settled, listings.take(k));
        assert(before == settled);
        assert(!is_arrival(before, listing));
        assert(!is_return(before, listing));
        assert(!is_reconfiguration(before, listing));
    }
    lemma_empty_report(settled, listings, arrival);
    lemma_empty_report(settled, listings, recognition);
    lemma_empty_report(settled, listings, reconfiguration);
}

proof fn lemma_attach_fixed(outputs: Map<OutputIdentity, Output>, listings: Seq<Listing>, n: int)
    requires
        0 <= n <= listings.len(),
        forall|k: int|
            0 <= k < listings.len() ==> #[trigger] outputs.contains_key(listings[k].0)
                && reports_listing(outputs[listings[k].0], listings[k]),
    ensures
        attach_all(outputs, listings.take(n)) =~= outputs,
    decreases n,
{
    if n > 0 {
        lemma_attach_fixed(outputs, listings, n - 1);
        assert(listings.take(n).drop_last() =~= listings.take(n - 1));
        assert(listings.take(n).last() == listings[n - 1]);
        assert(outputs.contains_key(listings[n - 1].0));
        assert(attach_one(outputs, listings[n - 1]) =~= outputs);
    }
}

proof fn lemma_empty_report(
    outputs: Map<OutputIdentity, Output>,
    listings: Seq<Listing>,
    counts: spec_fn(Map<OutputIdentity, Output>, Listing) -> bool,
)
    requires
        forall|k: int| 0 <= k < listings.len() ==> !#[trigger] counted_at(outputs, listings, counts, k),
    ensures
        reported(outputs, listings, counts).len() == 0,
{
    let all = reported(outputs, listings, counts);
    if all.len() > 0 {
        lemma_reported_members(outputs, listings, counts, all[0]);
        assert(all.contains(all[0]));
    }
}

/// An area moved onto a screen by the rescue lands on that screen: the moved area overlaps it,
/// for any non-empty area and any non-empty screen whose far edges are coordinates.
pub proof fn rescued_area_lands_on_its_screen(screen: Rect, area: Rect)
    requires
        screen.width > 0,
        screen.height > 0,
        area.width > 0,
        area.height > 0,
        screen.x + screen.width <= i32::MAX,
        screen.y + screen.height <= i32::MAX,
    ensures
        rects_overlap(
            screen,
            Rect {
                x: clamped_position(screen, area).x,
                y: clamped_position(screen, area).y,
                width: area.width,
                height: area.height,
            },
        ),
{
}

} // verus!
