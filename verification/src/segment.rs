use vstd::prelude::*;

verus! {

/// `s` with the positions `start..end` taken out.
pub open spec fn remove_range<A>(s: Seq<A>, start: int, end: int) -> Seq<A> {
    s.subrange(0, start) + s.subrange(end, s.len() as int)
}

/// `s` with `items` inserted, in order, before position `pos`.
pub open spec fn insert_seq<A>(s: Seq<A>, pos: int, items: Seq<A>) -> Seq<A> {
    s.subrange(0, pos) + items + s.subrange(pos, s.len() as int)
}

/// The relocation of a contiguous segment: the positions `source_start..source_end` of the
/// source entity's list are removed and inserted at `dest_position` of the destination
/// entity's list, where `dest_position` counts positions of the destination list after the
/// removal.
#[derive(Clone, Copy, Debug, PartialEq, Eq)]
pub struct SegmentRelocation {
    pub source_entity_index: usize,
    pub source_start: usize,
    pub source_end: usize,
    pub dest_entity_index: usize,
    pub dest_position: usize,
}

/// A relocation together with the relocation that undoes it.
#[derive(Clone, Copy, Debug, PartialEq, Eq)]
pub struct SegmentRelocationLayout {
    pub exact: SegmentRelocation,
    pub inverse: SegmentRelocation,
}

impl SegmentRelocation {
    pub open spec fn len(self) -> int {
        self.source_end - self.source_start
    }

    /// The relocation moving the segment back: it takes the segment from where it was
    /// inserted and puts it back where it was removed.
    pub open spec fn spec_inverse(self) -> SegmentRelocation {
        SegmentRelocation {
            source_entity_index: self.dest_entity_index,
            source_start: self.dest_position,
            source_end: (self.dest_position + self.len()) as usize,
            dest_entity_index: self.source_entity_index,
            dest_position: self.source_start,
        }
    }

    /// The relocation can be applied to `lists`: both entities exist, the segment lies inside
    /// the source list, and the insertion point lies inside the destination list after the
    /// removal.
    pub open spec fn applicable(self, lists: Seq<Seq<usize>>) -> bool {
        let src = self.source_entity_index as int;
        let dst = self.dest_entity_index as int;
        &&& src < lists.len()
        &&& dst < lists.len()
        &&& self.source_start <= self.source_end <= lists[src].len()
        &&& self.dest_position <= (if src == dst {
            lists[src].len() - self.len()
        } else {
            lists[dst].len() as int
        })
    }

    /// `lists` after the relocation.
    pub open spec fn apply(self, lists: Seq<Seq<usize>>) -> Seq<Seq<usize>> {
        let src = self.source_entity_index as int;
        let dst = self.dest_entity_index as int;
        let block = lists[src].subrange(self.source_start as int, self.source_end as int);
        let removed = lists.update(src, remove_range(lists[src], self.source_start as int, self.source_end as int));
        removed.update(dst, insert_seq(removed[dst], self.dest_position as int, block))
    }
}

/// Builds the layout of the relocation of `source_start..source_end` of `source_entity_index`
/// to `dest_position` of `dest_entity_index`, and of its inverse.
pub fn derive_segment_relocation_layout(
    source_entity_index: usize,
    source_start: usize,
    source_end: usize,
    dest_entity_index: usize,
    dest_position: usize,
) -> (layout: SegmentRelocationLayout)
    requires
        source_start <= source_end,
        dest_position + (source_end - source_start) <= usize::MAX,
    ensures
        layout.exact == (SegmentRelocation {
            source_entity_index,
            source_start,
            source_end,
            dest_entity_index,
            dest_position,
        }),
        layout.inverse == layout.exact.spec_inverse(),
{
    let exact = SegmentRelocation {
        source_entity_index,
        source_start,
        source_end,
        dest_entity_index,
        dest_position,
    };
    let inverse = SegmentRelocation {
        source_entity_index: dest_entity_index,
        source_start: dest_position,
        source_end: dest_position + (source_end - source_start),
        dest_entity_index: source_entity_index,
        dest_position: source_start,
    };
    SegmentRelocationLayout { exact, inverse }
}

/// Relocating a segment and then applying the inverse relocation gives back the original
/// lists; the inverse relocation is applicable to the relocated lists.
pub proof fn lemma_relocation_round_trip(r: SegmentRelocation, lists: Seq<Seq<usize>>)
    requires
        r.applicable(lists),
        r.dest_position + r.len() <= usize::MAX,
    ensures
        r.spec_inverse().applicable(r.apply(lists)),
        r.spec_inverse().apply(r.apply(lists)) == lists,
{
    let src = r.source_entity_index as int;
    let dst = r.dest_entity_index as int;
    let a = r.source_start as int;
    let b = r.source_end as int;
    let p = r.dest_position as int;
    let s = lists[src];
    let block = s.subrange(a, b);
    let removed_src = remove_range(s, a, b);
    let removed = lists.update(src, removed_src);
    let d = removed[dst];
    let inserted = insert_seq(d, p, block);
    let after = r.apply(lists);
    assert(after == removed.update(dst, inserted));
    assert(inserted.subrange(p, p + (b - a)) =~= block);
    assert(remove_range(inserted, p, p + (b - a)) =~= d);
    let inv = r.spec_inverse();
    assert(inserted.len() == d.len() + (b - a));
    assert(inv.source_entity_index == r.dest_entity_index);
    assert(inv.dest_entity_index == r.source_entity_index);
    assert(inv.source_start == p && inv.source_end == p + (b - a) && inv.dest_position == a);
    let block2 = after[dst].subrange(p, p + (b - a));
    let removed2 = after.update(dst, remove_range(after[dst], p, p + (b - a)));
    let result = removed2.update(src, insert_seq(removed2[src], a, block2));
    assert(inv.apply(after) == result);
    assert(after[dst] == inserted);
    assert(block2 =~= block);
    assert(insert_seq(removed_src, a, block) =~= s);
    if src == dst {
        assert(d == removed_src);
        assert(removed2[src] == d);
        assert(result =~= lists);
    } else {
        assert(d == lists[dst]);
        assert(removed2[src] == removed_src);
        assert(removed2[dst] == d);
        assert(result =~= lists);
    }
    assert(lists.update(src, s) =~= lists);
}

/// The inverse of the inverse relocation is the relocation itself.
pub proof fn lemma_inverse_involution(r: SegmentRelocation)
    requires
        r.source_start <= r.source_end,
        r.dest_position + r.len() <= usize::MAX,
    ensures
        r.spec_inverse().spec_inverse() == r,
{
}

} // verus!
