use vstd::prelude::*;

use crate::solution::{clone_keys, clone_table, deep_table, ListSolution};

verus! {

/// Adapts a cross-entity distance meter to positions within one entity's list: the distance
/// between two positions of one list is the cross-entity distance with that entity on both
/// sides.
#[derive(Debug, Clone)]
pub struct IntraDistanceAdapter<T>(pub T);

/// Whether two strings hold the same characters.
pub fn str_eq(a: &str, b: &str) -> (r: bool)
    ensures
        r == (a@ == b@),
{
    let n = a.unicode_len();
    if n != b.unicode_len() {
        return false;
    }
    let mut i: usize = 0;
    while i < n
        invariant
            n == a@.len(),
            n == b@.len(),
            i <= n,
            forall|k: int| 0 <= k < i ==> a@[k] == b@[k],
        decreases n - i,
    {
        if a.get_char(i) != b.get_char(i) {
            return false;
        }
        i = i + 1;
    }
    assert(a@ =~= b@);
    true
}

/// The number of elements assigned over all lists (counted with repetition).
pub open spec fn assigned_total(lists: Seq<Seq<usize>>) -> int
    decreases lists.len(),
{
    if lists.len() == 0 {
        0
    } else {
        assigned_total(lists.drop_last()) + lists.last().len()
    }
}

/// A `None` target matches anything, a named target matches only that name.
pub open spec fn target_matches(target: Option<&str>, name: &str) -> bool {
    match target {
        Some(t) => t@ == name@,
        None => true,
    }
}

/// The hooks of one list planning variable.
///
/// The list variable's own storage is the `ListSolution` model (element indices per owner).
/// Per-element hooks are tables indexed by element: the owner an element must belong to, its
/// construction order key, its precedence duration and successors, its family key, and its
/// eligible owners. Route and savings hooks, which this library only needs to know the
/// presence of, are opaque handles of type `RH` supplied by the embedding application.
#[derive(Debug)]
pub struct ListVariableSlot<DM, IDM, RH> {
    pub entity_type_name: &'static str,
    pub cross_distance_meter: DM,
    pub intra_distance_meter: IDM,
    pub variable_name: &'static str,
    pub descriptor_index: usize,
    pub route_get_fn: Option<RH>,
    pub route_set_fn: Option<RH>,
    pub route_depot_fn: Option<RH>,
    pub route_distance_fn: Option<RH>,
    pub route_feasible_fn: Option<RH>,
    pub savings_depot_fn: Option<RH>,
    pub savings_metric_class_fn: Option<RH>,
    pub savings_distance_fn: Option<RH>,
    pub savings_feasible_fn: Option<RH>,
    pub element_owner_fn: Option<Vec<Option<usize>>>,
    pub construction_element_order_key: Option<Vec<i64>>,
    pub precedence_duration_fn: Option<Vec<usize>>,
    pub precedence_successors_fn: Option<Vec<Vec<usize>>>,
    pub element_family_key_fn: Option<Vec<Option<u64>>>,
    pub element_eligible_owners_fn: Option<Vec<Vec<usize>>>,
}

impl<DM, IDM, RH> ListVariableSlot<DM, IDM, RH> {
    /// Creates a slot with no per-element hooks attached.
    pub fn new(
        entity_type_name: &'static str,
        cross_distance_meter: DM,
        intra_distance_meter: IDM,
        variable_name: &'static str,
        descriptor_index: usize,
        route_get_fn: Option<RH>,
        route_set_fn: Option<RH>,
        route_depot_fn: Option<RH>,
        route_distance_fn: Option<RH>,
        route_feasible_fn: Option<RH>,
        savings_depot_fn: Option<RH>,
        savings_metric_class_fn: Option<RH>,
        savings_distance_fn: Option<RH>,
        savings_feasible_fn: Option<RH>,
    ) -> (s: Self)
        ensures
            s.entity_type_name == entity_type_name,
            s.cross_distance_meter == cross_distance_meter,
            s.intra_distance_meter == intra_distance_meter,
            s.variable_name == variable_name,
            s.descriptor_index == descriptor_index,
            s.route_get_fn == route_get_fn,
            s.route_set_fn == route_set_fn,
            s.route_depot_fn == route_depot_fn,
            s.route_distance_fn == route_distance_fn,
            s.route_feasible_fn == route_feasible_fn,
            s.savings_depot_fn == savings_depot_fn,
            s.savings_metric_class_fn == savings_metric_class_fn,
            s.savings_distance_fn == savings_distance_fn,
            s.savings_feasible_fn == savings_feasible_fn,
            s.element_owner_fn is None,
            s.construction_element_order_key is None,
            s.precedence_duration_fn is None,
            s.precedence_successors_fn is None,
            s.element_family_key_fn is None,
            s.element_eligible_owners_fn is None,
    {
        ListVariableSlot {
            entity_type_name,
            cross_distance_meter,
            intra_distance_meter,
            variable_name,
            descriptor_index,
            route_get_fn,
            route_set_fn,
            route_depot_fn,
            route_distance_fn,
            route_feasible_fn,
            savings_depot_fn,
            savings_metric_class_fn,
            savings_distance_fn,
            savings_feasible_fn,
            element_owner_fn: None,
            construction_element_order_key: None,
            precedence_duration_fn: None,
            precedence_successors_fn: None,
            element_family_key_fn: None,
            element_eligible_owners_fn: None,
        }
    }

    /// Attaches (or clears) the required owner of every element.
    pub fn with_element_owner_fn(self, element_owner_fn: Option<Vec<Option<usize>>>) -> (s: Self)
        ensures
            s == (Self { element_owner_fn, ..self }),
    {
        let mut s = self;
        s.element_owner_fn = element_owner_fn;
        s
    }

    /// Attaches (or clears) the construction order key of every element.
    pub fn with_construction_element_order_key(self, construction_element_order_key: Option<Vec<i64>>) -> (s: Self)
        ensures
            s == (Self { construction_element_order_key, ..self }),
    {
        let mut s = self;
        s.construction_element_order_key = construction_element_order_key;
        s
    }

    /// Attaches (or clears) the precedence duration and successors of every element.
    pub fn with_precedence_hooks(
        self,
        duration_fn: Option<Vec<usize>>,
        successors_fn: Option<Vec<Vec<usize>>>,
    ) -> (s: Self)
        ensures
            s == (Self { precedence_duration_fn: duration_fn, precedence_successors_fn: successors_fn, ..self }),
    {
        let mut s = self;
        s.precedence_duration_fn = duration_fn;
        s.precedence_successors_fn = successors_fn;
        s
    }

    /// Attaches (or clears) the family key and eligible owners of every element.
    pub fn with_family_block_hooks(
        self,
        element_family_key_fn: Option<Vec<Option<u64>>>,
        element_eligible_owners_fn: Option<Vec<Vec<usize>>>,
    ) -> (s: Self)
        ensures
            s == (Self { element_family_key_fn, element_eligible_owners_fn, ..self }),
    {
        let mut s = self;
        s.element_family_key_fn = element_family_key_fn;
        s.element_eligible_owners_fn = element_eligible_owners_fn;
        s
    }

    /// Whether the slot is the one a configuration targets: each given name must be the slot's.
    pub fn matches_target(&self, entity_class: Option<&str>, variable_name: Option<&str>) -> (r: bool)
        ensures
            r == (target_matches(entity_class, self.entity_type_name) && target_matches(variable_name, self.variable_name)),
    {
        let class_ok = match entity_class {
            Some(name) => str_eq(name, self.entity_type_name),
            None => true,
        };
        let variable_ok = match variable_name {
            Some(name) => str_eq(name, self.variable_name),
            None => true,
        };
        class_ok && variable_ok
    }

    /// Whether fewer elements are assigned to lists than the solution has.
    pub fn has_unassigned_elements(&self, solution: &ListSolution) -> (r: bool)
        ensures
            r == (assigned_total(solution.lists()) < solution.element_count),
    {
        if solution.element_count == 0 {
            proof {
                lemma_assigned_total_monotone(solution.lists(), 0);
                assert(solution.lists().subrange(0, 0) =~= Seq::<Seq<usize>>::empty());
            }
            return false;
        }
        let n = solution.routes.len();
        let mut total: usize = 0;
        let mut e: usize = 0;
        proof {
            solution.lemma_lists();
            assert(solution.lists().subrange(0, 0) =~= Seq::<Seq<usize>>::empty());
        }
        while e < n
            invariant
                n == solution.routes@.len(),
                e <= n,
                total == assigned_total(solution.lists().subrange(0, e as int)),
                total < solution.element_count,
            decreases n - e,
        {
            let len = solution.routes[e].len();
            proof {
                solution.lemma_lists();
                assert(solution.lists().subrange(0, e + 1).drop_last() =~= solution.lists().subrange(0, e as int));
            }
            if len >= solution.element_count - total {
                proof { lemma_assigned_total_monotone(solution.lists(), e as int + 1); }
                return false;
            }
            total = total + len;
            e = e + 1;
        }
        assert(solution.lists().subrange(0, n as int) =~= solution.lists());
        true
    }

    /// Whether some list holds at least one element.
    pub fn has_list_content(&self, solution: &ListSolution) -> (r: bool)
        ensures
            r == (exists|e: int| 0 <= e < solution.routes@.len() && #[trigger] solution.routes@[e]@.len() > 0),
    {
        let n = solution.entity_count();
        let mut e: usize = 0;
        while e < n
            invariant
                n == solution.routes@.len(),
                e <= n,
                forall|k: int| 0 <= k < e ==> #[trigger] solution.routes@[k]@.len() == 0,
            decreases n - e,
        {
            if solution.list_len(e) > 0 {
                assert(solution.routes@[e as int]@.len() > 0);
                return true;
            }
            e = e + 1;
        }
        false
    }

    pub fn supports_clarke_wright(&self) -> (r: bool)
        ensures
            r == (self.route_set_fn is Some && self.savings_depot_fn is Some && self.savings_distance_fn is Some
                && self.savings_feasible_fn is Some),
    {
        self.route_set_fn.is_some() && self.savings_depot_fn.is_some() && self.savings_distance_fn.is_some()
            && self.savings_feasible_fn.is_some()
    }

    pub fn supports_k_opt(&self) -> (r: bool)
        ensures
            r == (self.route_get_fn is Some && self.route_set_fn is Some && self.route_depot_fn is Some
                && self.route_distance_fn is Some),
    {
        self.route_get_fn.is_some() && self.route_set_fn.is_some() && self.route_depot_fn.is_some()
            && self.route_distance_fn.is_some()
    }

    pub fn supports_ruin(&self) -> (r: bool)
        ensures
            r,
    {
        true
    }

    pub fn supports_precedence_moves(&self) -> (r: bool)
        ensures
            r == (self.precedence_duration_fn is Some && self.precedence_successors_fn is Some),
    {
        self.precedence_duration_fn.is_some() && self.precedence_successors_fn.is_some()
    }
}

/// The assigned total of a prefix never exceeds that of a longer prefix.
proof fn lemma_assigned_total_monotone(lists: Seq<Seq<usize>>, k: int)
    requires
        0 <= k <= lists.len(),
    ensures
        assigned_total(lists.subrange(0, k)) <= assigned_total(lists),
    decreases lists.len() - k,
{
    if k < lists.len() {
        lemma_assigned_total_monotone(lists, k + 1);
        assert(lists.subrange(0, k + 1).drop_last() =~= lists.subrange(0, k));
    } else {
        assert(lists.subrange(0, k) =~= lists);
    }
}

} // verus!

verus! {

/// The contents of an optional table.
pub open spec fn opt_view<T>(t: Option<Vec<T>>) -> Option<Seq<T>> {
    match t {
        Some(v) => Some(v@),
        None => None,
    }
}

/// The contents of an optional table of lists.
pub open spec fn opt_deep(t: Option<Vec<Vec<usize>>>) -> Option<Seq<Seq<usize>>> {
    match t {
        Some(v) => Some(deep_table(v@)),
        None => None,
    }
}

/// `b` is a clone of the optional handle `a`: both absent, or `b` a clone of `a`'s value.
pub open spec fn handle_cloned<RH: Clone>(a: Option<RH>, b: Option<RH>) -> bool {
    match (a, b) {
        (Some(x), Some(y)) => cloned(x, y),
        (None, None) => true,
        _ => false,
    }
}

/// A copy of a vector of copyable values.
pub fn copy_vec<T: Copy>(v: &Vec<T>) -> (r: Vec<T>)
    ensures
        r@ == v@,
{
    let mut r: Vec<T> = Vec::new();
    let mut i: usize = 0;
    while i < v.len()
        invariant
            i <= v@.len(),
            r@ == v@.subrange(0, i as int),
        decreases v@.len() - i,
    {
        r.push(v[i]);
        i = i + 1;
        assert(r@ =~= v@.subrange(0, i as int));
    }
    assert(v@.subrange(0, i as int) =~= v@);
    r
}

/// A copy of an optional table of copyable values.
pub fn copy_opt_vec<T: Copy>(t: &Option<Vec<T>>) -> (r: Option<Vec<T>>)
    ensures
        opt_view(r) == opt_view(*t),
{
    match t {
        Some(v) => Some(copy_vec(v)),
        None => None,
    }
}

/// A copy of an optional table of lists.
pub fn copy_opt_table(t: &Option<Vec<Vec<usize>>>) -> (r: Option<Vec<Vec<usize>>>)
    ensures
        opt_deep(r) == opt_deep(*t),
{
    match t {
        Some(v) => Some(clone_table(v)),
        None => None,
    }
}

/// A copy of an optional table of family keys.
pub fn copy_opt_keys(t: &Option<Vec<Option<u64>>>) -> (r: Option<Vec<Option<u64>>>)
    ensures
        opt_view(r) == opt_view(*t),
{
    match t {
        Some(v) => Some(clone_keys(v)),
        None => None,
    }
}

/// A clone of an optional handle.
pub fn clone_handle<RH: Clone>(h: &Option<RH>) -> (r: Option<RH>)
    ensures
        handle_cloned(*h, r),
{
    match h {
        Some(x) => Some(x.clone()),
        None => None,
    }
}

impl<DM: Clone, IDM: Clone, RH: Clone> Clone for ListVariableSlot<DM, IDM, RH> {
    /// Copies the names, the descriptor index and every per-element table, and clones the
    /// distance meters and the route and savings handles.
    fn clone(&self) -> (r: Self)
        ensures
            r.entity_type_name == self.entity_type_name,
            r.variable_name == self.variable_name,
            r.descriptor_index == self.descriptor_index,
            cloned(self.cross_distance_meter, r.cross_distance_meter),
            cloned(self.intra_distance_meter, r.intra_distance_meter),
            handle_cloned(self.route_get_fn, r.route_get_fn),
            handle_cloned(self.route_set_fn, r.route_set_fn),
            handle_cloned(self.route_depot_fn, r.route_depot_fn),
            handle_cloned(self.route_distance_fn, r.route_distance_fn),
            handle_cloned(self.route_feasible_fn, r.route_feasible_fn),
            handle_cloned(self.savings_depot_fn, r.savings_depot_fn),
            handle_cloned(self.savings_metric_class_fn, r.savings_metric_class_fn),
            handle_cloned(self.savings_distance_fn, r.savings_distance_fn),
            handle_cloned(self.savings_feasible_fn, r.savings_feasible_fn),
            opt_view(r.element_owner_fn) == opt_view(self.element_owner_fn),
            opt_view(r.construction_element_order_key) == opt_view(self.construction_element_order_key),
            opt_view(r.precedence_duration_fn) == opt_view(self.precedence_duration_fn),
            opt_deep(r.precedence_successors_fn) == opt_deep(self.precedence_successors_fn),
            opt_view(r.element_family_key_fn) == opt_view(self.element_family_key_fn),
            opt_deep(r.element_eligible_owners_fn) == opt_deep(self.element_eligible_owners_fn),
    {
        ListVariableSlot {
            entity_type_name: self.entity_type_name,
            cross_distance_meter: self.cross_distance_meter.clone(),
            intra_distance_meter: self.intra_distance_meter.clone(),
            variable_name: self.variable_name,
            descriptor_index: self.descriptor_index,
            route_get_fn: clone_handle(&self.route_get_fn),
            route_set_fn: clone_handle(&self.route_set_fn),
            route_depot_fn: clone_handle(&self.route_depot_fn),
            route_distance_fn: clone_handle(&self.route_distance_fn),
            route_feasible_fn: clone_handle(&self.route_feasible_fn),
            savings_depot_fn: clone_handle(&self.savings_depot_fn),
            savings_metric_class_fn: clone_handle(&self.savings_metric_class_fn),
            savings_distance_fn: clone_handle(&self.savings_distance_fn),
            savings_feasible_fn: clone_handle(&self.savings_feasible_fn),
            element_owner_fn: copy_opt_vec(&self.element_owner_fn),
            construction_element_order_key: copy_opt_vec(&self.construction_element_order_key),
            precedence_duration_fn: copy_opt_vec(&self.precedence_duration_fn),
            precedence_successors_fn: copy_opt_table(&self.precedence_successors_fn),
            element_family_key_fn: copy_opt_keys(&self.element_family_key_fn),
            element_eligible_owners_fn: copy_opt_table(&self.element_eligible_owners_fn),
        }
    }
}

} // verus!

verus! {

/// The per-element hooks a planning model declares on one entity type: the entity's list
/// variable (if it has one), its descriptor index, and the table each declared hook computes.
#[derive(Debug)]
pub struct DeclaredListHooks {
    pub descriptor_index: usize,
    pub variable_name: Option<&'static str>,
    pub element_owner: Option<Vec<Option<usize>>>,
    pub construction_order_key: Option<Vec<i64>>,
    pub precedence_duration: Option<Vec<usize>>,
    pub precedence_successors: Option<Vec<Vec<usize>>>,
    pub family_key: Option<Vec<Option<u64>>>,
    pub eligible_owners: Option<Vec<Vec<usize>>>,
}

/// The declaration is for the slot's list variable: same descriptor index and variable name.
pub open spec fn declares_for<DM, IDM, RH>(d: DeclaredListHooks, s: ListVariableSlot<DM, IDM, RH>) -> bool {
    &&& d.variable_name is Some
    &&& s.descriptor_index == d.descriptor_index
    &&& s.variable_name@ == d.variable_name->0@
}

/// The slot once one entity's declared hooks are attached: for a declaration of its list
/// variable, the element owner and construction order key each when declared, the precedence
/// hooks when both are declared, and the family-block hooks (each as declared, possibly absent)
/// when either is declared; any other slot is left as it is.
pub open spec fn attach_one<DM, IDM, RH>(s: ListVariableSlot<DM, IDM, RH>, d: DeclaredListHooks) -> ListVariableSlot<DM, IDM, RH> {
    if declares_for(d, s) {
        let s1 = if d.element_owner is Some { ListVariableSlot { element_owner_fn: d.element_owner, ..s } } else { s };
        let s2 = if d.construction_order_key is Some {
            ListVariableSlot { construction_element_order_key: d.construction_order_key, ..s1 }
        } else {
            s1
        };
        let s3 = if d.precedence_duration is Some && d.precedence_successors is Some {
            ListVariableSlot { precedence_duration_fn: d.precedence_duration, precedence_successors_fn: d.precedence_successors, ..s2 }
        } else {
            s2
        };
        if d.family_key is Some || d.eligible_owners is Some {
            ListVariableSlot { element_family_key_fn: d.family_key, element_eligible_owners_fn: d.eligible_owners, ..s3 }
        } else {
            s3
        }
    } else {
        s
    }
}

/// The slot once the declarations are attached, in order.
pub open spec fn attach_all<DM, IDM, RH>(s: ListVariableSlot<DM, IDM, RH>, ds: Seq<DeclaredListHooks>) -> ListVariableSlot<DM, IDM, RH>
    decreases ds.len(),
{
    if ds.len() == 0 {
        s
    } else {
        attach_all(attach_one(s, ds[0]), ds.drop_first())
    }
}

/// Attaches one entity's declared hooks to the slot (see `attach_one`).
fn attach_declared<DM, IDM, RH>(slot: ListVariableSlot<DM, IDM, RH>, d: DeclaredListHooks) -> (r: ListVariableSlot<DM, IDM, RH>)
    ensures
        r == attach_one(slot, d),
{
    let DeclaredListHooks {
        descriptor_index,
        variable_name,
        element_owner,
        construction_order_key,
        precedence_duration,
        precedence_successors,
        family_key,
        eligible_owners,
    } = d;
    let matches = match variable_name {
        Some(name) => slot.descriptor_index == descriptor_index && str_eq(slot.variable_name, name),
        None => false,
    };
    if !matches {
        return slot;
    }
    let mut s = slot;
    if element_owner.is_some() {
        s = s.with_element_owner_fn(element_owner);
    }
    if construction_order_key.is_some() {
        s = s.with_construction_element_order_key(construction_order_key);
    }
    if precedence_duration.is_some() && precedence_successors.is_some() {
        s = s.with_precedence_hooks(precedence_duration, precedence_successors);
    }
    if family_key.is_some() || eligible_owners.is_some() {
        s = s.with_family_block_hooks(family_key, eligible_owners);
    }
    s
}

/// Attaches the list hooks a planning model declares, entity by entity, to the slot of its
/// list variable (see `attach_all`).
pub fn attach_runtime_list_hooks<DM, IDM, RH>(
    slot: ListVariableSlot<DM, IDM, RH>,
    declared: Vec<DeclaredListHooks>,
) -> (r: ListVariableSlot<DM, IDM, RH>)
    ensures
        r == attach_all(slot, declared@),
{
    let mut s = slot;
    let mut rest = declared;
    while rest.len() > 0
        invariant
            attach_all(s, rest@) == attach_all(slot, declared@),
        decreases rest@.len(),
    {
        let ghost before = rest@;
        let d = rest.remove(0);
        assert(rest@ =~= before.drop_first());
        s = attach_declared(s, d);
    }
    s
}

} // verus!

verus! {

/// `d` is for the slot's list variable and declares an element owner table.
pub open spec fn declares_owner<DM, IDM, RH>(d: DeclaredListHooks, s: ListVariableSlot<DM, IDM, RH>) -> bool {
    (d.variable_name is Some && s.descriptor_index == d.descriptor_index && s.variable_name@ == d.variable_name->0@) && d.element_owner is Some
}

/// `d` is for the slot's list variable and declares a construction order key.
pub open spec fn declares_order<DM, IDM, RH>(d: DeclaredListHooks, s: ListVariableSlot<DM, IDM, RH>) -> bool {
    (d.variable_name is Some && s.descriptor_index == d.descriptor_index && s.variable_name@ == d.variable_name->0@) && d.construction_order_key is Some
}

/// `d` is for the slot's list variable and declares both precedence hooks.
pub open spec fn declares_precedence<DM, IDM, RH>(d: DeclaredListHooks, s: ListVariableSlot<DM, IDM, RH>) -> bool {
    (d.variable_name is Some && s.descriptor_index == d.descriptor_index && s.variable_name@ == d.variable_name->0@) && d.precedence_duration is Some && d.precedence_successors is Some
}

/// `d` is for the slot's list variable and declares a family key or eligible owners.
pub open spec fn declares_family<DM, IDM, RH>(d: DeclaredListHooks, s: ListVariableSlot<DM, IDM, RH>) -> bool {
    (d.variable_name is Some && s.descriptor_index == d.descriptor_index && s.variable_name@ == d.variable_name->0@) && (d.family_key is Some || d.eligible_owners is Some)
}

/// Attaching declared hooks keeps the slot's names, descriptor and distance meters.
pub proof fn lemma_attach_keeps_names<DM, IDM, RH>(s: ListVariableSlot<DM, IDM, RH>, ds: Seq<DeclaredListHooks>)
    ensures
        attach_all(s, ds).entity_type_name == s.entity_type_name,
        attach_all(s, ds).variable_name == s.variable_name,
        attach_all(s, ds).descriptor_index == s.descriptor_index,
        attach_all(s, ds).cross_distance_meter == s.cross_distance_meter,
        attach_all(s, ds).intra_distance_meter == s.intra_distance_meter,
    decreases ds.len(),
{
    if ds.len() > 0 {
        lemma_attach_keeps_names(attach_one(s, ds[0]), ds.drop_first());
    }
}

/// The element owner table of the result is the one of the last declaration for the slot that
/// declares one, and the slot's own when none does.
pub proof fn lemma_attached_owner<DM, IDM, RH>(s: ListVariableSlot<DM, IDM, RH>, ds: Seq<DeclaredListHooks>)
    ensures
        forall|i: int| #![trigger ds[i]] 0 <= i < ds.len() && declares_owner(ds[i], s)
            && (forall|j: int| i < j < ds.len() ==> !declares_owner(#[trigger] ds[j], s))
            ==> attach_all(s, ds).element_owner_fn == ds[i].element_owner,
        (forall|j: int| 0 <= j < ds.len() ==> !declares_owner(#[trigger] ds[j], s)) ==> attach_all(s, ds).element_owner_fn == s.element_owner_fn,
    decreases ds.len(),
{
    if ds.len() > 0 {
        let s1 = attach_one(s, ds[0]);
        let rest = ds.drop_first();
        lemma_attached_owner(s1, rest);
        assert(s1.descriptor_index == s.descriptor_index && s1.variable_name == s.variable_name);
        assert forall|i: int| #![trigger ds[i]] 0 <= i < ds.len() && declares_owner(ds[i], s)
            && (forall|j: int| i < j < ds.len() ==> !declares_owner(#[trigger] ds[j], s))
            implies attach_all(s, ds).element_owner_fn == ds[i].element_owner by {
            if i > 0 {
                assert(rest[i - 1] == ds[i]);
                assert forall|j: int| i - 1 < j < rest.len() implies !declares_owner(#[trigger] rest[j], s1) by {
                    assert(rest[j] == ds[j + 1]);
                }
            } else {
                assert forall|j: int| 0 <= j < rest.len() implies !declares_owner(#[trigger] rest[j], s1) by {
                    assert(rest[j] == ds[j + 1]);
                }
            }
        }
        if forall|j: int| 0 <= j < ds.len() ==> !declares_owner(#[trigger] ds[j], s) {
            assert(!declares_owner(ds[0], s));
            assert forall|j: int| 0 <= j < rest.len() implies !declares_owner(#[trigger] rest[j], s1) by {
                assert(rest[j] == ds[j + 1]);
            }
        }
    }
}

/// The construction order key of the result is the one of the last declaration for the slot
/// that declares one, and the slot's own when none does.
pub proof fn lemma_attached_order<DM, IDM, RH>(s: ListVariableSlot<DM, IDM, RH>, ds: Seq<DeclaredListHooks>)
    ensures
        forall|i: int| #![trigger ds[i]] 0 <= i < ds.len() && declares_order(ds[i], s)
            && (forall|j: int| i < j < ds.len() ==> !declares_order(#[trigger] ds[j], s))
            ==> attach_all(s, ds).construction_element_order_key == ds[i].construction_order_key,
        (forall|j: int| 0 <= j < ds.len() ==> !declares_order(#[trigger] ds[j], s)) ==> attach_all(s, ds).construction_element_order_key == s.construction_element_order_key,
    decreases ds.len(),
{
    if ds.len() > 0 {
        let s1 = attach_one(s, ds[0]);
        let rest = ds.drop_first();
        lemma_attached_order(s1, rest);
        assert(s1.descriptor_index == s.descriptor_index && s1.variable_name == s.variable_name);
        assert forall|i: int| #![trigger ds[i]] 0 <= i < ds.len() && declares_order(ds[i], s)
            && (forall|j: int| i < j < ds.len() ==> !declares_order(#[trigger] ds[j], s))
            implies attach_all(s, ds).construction_element_order_key == ds[i].construction_order_key by {
            if i > 0 {
                assert(rest[i - 1] == ds[i]);
                assert forall|j: int| i - 1 < j < rest.len() implies !declares_order(#[trigger] rest[j], s1) by {
                    assert(rest[j] == ds[j + 1]);
                }
            } else {
                assert forall|j: int| 0 <= j < rest.len() implies !declares_order(#[trigger] rest[j], s1) by {
                    assert(rest[j] == ds[j + 1]);
                }
            }
        }
        if forall|j: int| 0 <= j < ds.len() ==> !declares_order(#[trigger] ds[j], s) {
            assert(!declares_order(ds[0], s));
            assert forall|j: int| 0 <= j < rest.len() implies !declares_order(#[trigger] rest[j], s1) by {
                assert(rest[j] == ds[j + 1]);
            }
        }
    }
}

/// The precedence hooks of the result are the ones of the last declaration for the slot that
/// declares both, and the slot's own when none does.
pub proof fn lemma_attached_precedence<DM, IDM, RH>(s: ListVariableSlot<DM, IDM, RH>, ds: Seq<DeclaredListHooks>)
    ensures
        forall|i: int| #![trigger ds[i]] 0 <= i < ds.len() && declares_precedence(ds[i], s)
            && (forall|j: int| i < j < ds.len() ==> !declares_precedence(#[trigger] ds[j], s))
            ==> attach_all(s, ds).precedence_duration_fn == ds[i].precedence_duration
                && attach_all(s, ds).precedence_successors_fn == ds[i].precedence_successors,
        (forall|j: int| 0 <= j < ds.len() ==> !declares_precedence(#[trigger] ds[j], s)) ==> attach_all(s, ds).precedence_duration_fn == s.precedence_duration_fn
                && attach_all(s, ds).precedence_successors_fn == s.precedence_successors_fn,
    decreases ds.len(),
{
    if ds.len() > 0 {
        let s1 = attach_one(s, ds[0]);
        let rest = ds.drop_first();
        lemma_attached_precedence(s1, rest);
        assert(s1.descriptor_index == s.descriptor_index && s1.variable_name == s.variable_name);
        assert forall|i: int| #![trigger ds[i]] 0 <= i < ds.len() && declares_precedence(ds[i], s)
            && (forall|j: int| i < j < ds.len() ==> !declares_precedence(#[trigger] ds[j], s))
            implies attach_all(s, ds).precedence_duration_fn == ds[i].precedence_duration
                && attach_all(s, ds).precedence_successors_fn == ds[i].precedence_successors by {
            if i > 0 {
                assert(rest[i - 1] == ds[i]);
                assert forall|j: int| i - 1 < j < rest.len() implies !declares_precedence(#[trigger] rest[j], s1) by {
                    assert(rest[j] == ds[j + 1]);
                }
            } else {
                assert forall|j: int| 0 <= j < rest.len() implies !declares_precedence(#[trigger] rest[j], s1) by {
                    assert(rest[j] == ds[j + 1]);
                }
            }
        }
        if forall|j: int| 0 <= j < ds.len() ==> !declares_precedence(#[trigger] ds[j], s) {
            assert(!declares_precedence(ds[0], s));
            assert forall|j: int| 0 <= j < rest.len() implies !declares_precedence(#[trigger] rest[j], s1) by {
                assert(rest[j] == ds[j + 1]);
            }
        }
    }
}

/// The family-block hooks of the result are the pair of the last declaration for the slot that
/// declares either (an undeclared one absent), and the slot's own when none does.
pub proof fn lemma_attached_family<DM, IDM, RH>(s: ListVariableSlot<DM, IDM, RH>, ds: Seq<DeclaredListHooks>)
    ensures
        forall|i: int| #![trigger ds[i]] 0 <= i < ds.len() && declares_family(ds[i], s)
            && (forall|j: int| i < j < ds.len() ==> !declares_family(#[trigger] ds[j], s))
            ==> attach_all(s, ds).element_family_key_fn == ds[i].family_key
                && attach_all(s, ds).element_eligible_owners_fn == ds[i].eligible_owners,
        (forall|j: int| 0 <= j < ds.len() ==> !declares_family(#[trigger] ds[j], s)) ==> attach_all(s, ds).element_family_key_fn == s.element_family_key_fn
                && attach_all(s, ds).element_eligible_owners_fn == s.element_eligible_owners_fn,
    decreases ds.len(),
{
    if ds.len() > 0 {
        let s1 = attach_one(s, ds[0]);
        let rest = ds.drop_first();
        lemma_attached_family(s1, rest);
        assert(s1.descriptor_index == s.descriptor_index && s1.variable_name == s.variable_name);
        assert forall|i: int| #![trigger ds[i]] 0 <= i < ds.len() && declares_family(ds[i], s)
            && (forall|j: int| i < j < ds.len() ==> !declares_family(#[trigger] ds[j], s))
            implies attach_all(s, ds).element_family_key_fn == ds[i].family_key
                && attach_all(s, ds).element_eligible_owners_fn == ds[i].eligible_owners by {
            if i > 0 {
                assert(rest[i - 1] == ds[i]);
                assert forall|j: int| i - 1 < j < rest.len() implies !declares_family(#[trigger] rest[j], s1) by {
                    assert(rest[j] == ds[j + 1]);
                }
            } else {
                assert forall|j: int| 0 <= j < rest.len() implies !declares_family(#[trigger] rest[j], s1) by {
                    assert(rest[j] == ds[j + 1]);
                }
            }
        }
        if forall|j: int| 0 <= j < ds.len() ==> !declares_family(#[trigger] ds[j], s) {
            assert(!declares_family(ds[0], s));
            assert forall|j: int| 0 <= j < rest.len() implies !declares_family(#[trigger] rest[j], s1) by {
                assert(rest[j] == ds[j + 1]);
            }
        }
    }
}

} // verus!
