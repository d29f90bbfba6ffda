//! How a zone reads as text.
use vstd::prelude::*;
use vstd::string::*;
use crate::arith::extended_number::ExtendedNumber;
use crate::interval::Interval;
use crate::text;
use crate::var_registry::RegistryView;
use crate::zone_model;
use crate::zone_model::ZEdges;

verus! {

/// The name of a variable.
pub open spec fn name_of(r: RegistryView, v: u64) -> Seq<char> {
    r.names[v as int]
}

/// The zone says that `u` is at most `v` by a constraint of weight zero.
pub open spec fn tied(z: ZEdges, v: u64, u: u64) -> bool {
    z.contains_key((zone_model::node(v), zone_model::node(u))) && z[(zone_model::node(v), zone_model::node(u))]@ == 0
}

/// No variable that is tied to `v` has a smaller name than `u`.
pub open spec fn none_smaller(z: ZEdges, r: RegistryView, v: u64, u: u64) -> bool {
    &&& !text::text_lt(name_of(r, v), name_of(r, u))
    &&& forall|w: u64| #[trigger] tied(z, v, w) ==> !text::text_lt(name_of(r, w), name_of(r, u))
}

/// The variable stands for those that it is tied to: none of them has a smaller name.
pub open spec fn representative(z: ZEdges, r: RegistryView, v: u64) -> bool {
    none_smaller(z, r, v, v)
}

/// The line that ties a variable to its representative.
pub open spec fn alias_line(z: ZEdges, r: RegistryView, v: u64, l: Seq<char>) -> bool {
    exists|u: u64| #[trigger] tied(z, v, u) && u != v && none_smaller(z, r, v, u) && l == name_of(r, v) + "="@ + name_of(r, u)
}

/// The interval that is shown for a variable.
pub open spec fn shown_interval(z: ZEdges, r: RegistryView, v: u64) -> Interval {
    Interval::of_bounds(
        zone_model::lower(z, v),
        if r.metas[v as int].is_min_only { ExtendedNumber::PlusInfinity } else { zone_model::upper(z, v) },
    )
}

/// Whether the zone bounds a variable on a side that counts.
pub open spec fn shows_interval(z: ZEdges, r: RegistryView, v: u64) -> bool {
    z.contains_key((zone_model::node(v), 0)) || (z.contains_key((0, zone_model::node(v))) && !r.metas[v as int].is_min_only)
}

/// The text of the interval of a variable.
pub open spec fn interval_text(z: ZEdges, r: RegistryView, v: u64) -> Seq<char> {
    let iv = shown_interval(z, r, v);
    if r.metas[v as int].is_min_only || iv.lb == iv.ub { iv.lb.text() } else { iv.text() }
}

/// The line that bounds a representative.
pub open spec fn interval_line(z: ZEdges, r: RegistryView, v: u64, l: Seq<char>) -> bool {
    representative(z, r, v) && shows_interval(z, r, v) && l == name_of(r, v) + "="@ + interval_text(z, r, v)
}

/// The weight of the constraint `d - s <= w`.
pub open spec fn gap(z: ZEdges, s: u64, d: u64) -> int {
    z[(zone_model::node(s), zone_model::node(d))]@
}

/// The reverse constraint has the opposite weight, so that the difference is known.
pub open spec fn exact_gap(z: ZEdges, s: u64, d: u64) -> bool {
    z.contains_key((zone_model::node(d), zone_model::node(s))) && gap(z, d, s) == -gap(z, s, d)
}

/// The line that bounds the difference of two representatives, or gives it where it is known.
pub open spec fn difference_line(z: ZEdges, r: RegistryView, s: u64, d: u64, l: Seq<char>) -> bool {
    &&& z.contains_key((zone_model::node(s), zone_model::node(d)))
    &&& gap(z, s, d) != 0
    &&& representative(z, r, s)
    &&& representative(z, r, d)
    &&& l == difference_text(z, r, s, d)
}

pub open spec fn difference_text(z: ZEdges, r: RegistryView, s: u64, d: u64) -> Seq<char> {
    let w = gap(z, s, d);
    if exact_gap(z, s, d) {
        if w > 0 {
            name_of(r, d) + "="@ + name_of(r, s) + "+"@ + text::dec_int(w)
        } else {
            name_of(r, s) + "="@ + name_of(r, d) + "+"@ + text::dec_int(-w)
        }
    } else {
        name_of(r, d) + "-"@ + name_of(r, s) + "<="@ + text::dec_int(w)
    }
}

/// The lines of a zone.
pub open spec fn zone_line(z: ZEdges, r: RegistryView, l: Seq<char>) -> bool {
    ||| exists|v: u64| #[trigger] alias_line(z, r, v, l)
    ||| exists|v: u64| #[trigger] interval_line(z, r, v, l)
    ||| exists|s: u64, d: u64| #[trigger] difference_line(z, r, s, d, l)
}

}
