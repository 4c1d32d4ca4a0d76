//! Symbolic memory: a versioned mapping from storage locations to the
//! symbolic names currently holding their values, with copy, move and
//! dereference semantics. Reading through a pointer lazily materializes the
//! pointed-to value, tags the pointer's declaration with the node where the
//! dereference happened, and memoizes the materialization for later reads
//! of the same projection in the same snapshot.

use vstd::prelude::*;

use crate::mir::{ExecError, Operand, Place, StaticTy};
use crate::sir::{decl_of, scalar_symty, DeclView, Expr, MirVariableProp, Origin, Sir, SymTy};
use crate::structures::{Name, NodeId};

verus! {

/// The map an association list denotes; later entries win.
pub open spec fn map_of(s: Seq<(Place, Name)>) -> Map<Place, Name>
    decreases s.len(),
{
    if s.len() == 0 {
        Map::<Place, Name>::empty()
    } else {
        map_of(s.drop_last()).insert(s.last().0, s.last().1)
    }
}

/// No storage location appears twice.
pub open spec fn keys_distinct(s: Seq<(Place, Name)>) -> bool {
    forall|i: int, j: int| 0 <= i < j < s.len() ==> (#[trigger] s[i]).0 != (#[trigger] s[j]).0
}

/// A key is in the denoted map exactly when some entry carries it.
proof fn lemma_map_of_contains(s: Seq<(Place, Name)>, p: Place)
    ensures
        map_of(s).contains_key(p) <==> exists|i: int| 0 <= i < s.len() && (#[trigger] s[i]).0
            == p,
    decreases s.len(),
{
    if s.len() > 0 {
        lemma_map_of_contains(s.drop_last(), p);
        if map_of(s).contains_key(p) {
            if s.last().0 == p {
                assert(s[s.len() - 1].0 == p);
            } else {
                let i = choose|i: int| 0 <= i < s.drop_last().len() && (#[trigger] s.drop_last()[
                    i
                ]).0 == p;
                assert(s[i].0 == p);
            }
        }
        if exists|i: int| 0 <= i < s.len() && (#[trigger] s[i]).0 == p {
            let i = choose|i: int| 0 <= i < s.len() && (#[trigger] s[i]).0 == p;
            if i < s.len() - 1 {
                assert(s.drop_last()[i].0 == p);
            }
        }
    }
}

/// With distinct keys, the entry at any index is what the map holds.
proof fn lemma_map_of_index(s: Seq<(Place, Name)>, i: int)
    requires
        keys_distinct(s),
        0 <= i < s.len(),
    ensures
        map_of(s).contains_key(s[i].0),
        map_of(s)[s[i].0] == s[i].1,
    decreases s.len(),
{
    if i == s.len() - 1 {
    } else {
        assert(keys_distinct(s.drop_last()));
        assert(s.drop_last()[i] == s[i]);
        lemma_map_of_index(s.drop_last(), i);
        assert(s[i].0 != s.last().0);
    }
}

/// Overwriting the entry that carries a key denotes a map insert.
proof fn lemma_map_of_update(s: Seq<(Place, Name)>, i: int, nm: Name)
    requires
        keys_distinct(s),
        0 <= i < s.len(),
    ensures
        map_of(s.update(i, (s[i].0, nm))) =~= map_of(s).insert(s[i].0, nm),
        keys_distinct(s.update(i, (s[i].0, nm))),
    decreases s.len(),
{
    let t = s.update(i, (s[i].0, nm));
    assert forall|a: int, b: int| 0 <= a < b < t.len() implies (#[trigger] t[a]).0 != (
    #[trigger] t[b]).0 by {
        assert(t[a].0 == s[a].0);
        assert(t[b].0 == s[b].0);
    }
    if i == s.len() - 1 {
        assert(t.drop_last() =~= s.drop_last());
    } else {
        assert(t.drop_last() =~= s.drop_last().update(i, (s[i].0, nm)));
        assert(keys_distinct(s.drop_last()));
        assert(s.drop_last()[i] == s[i]);
        lemma_map_of_update(s.drop_last(), i, nm);
        assert(s[i].0 != s.last().0);
        assert(t.last() == s.last());
        assert(map_of(t) =~= map_of(s).insert(s[i].0, nm));
    }
}

/// Removing the entry that carries a key denotes a map removal.
proof fn lemma_map_of_remove(s: Seq<(Place, Name)>, i: int)
    requires
        keys_distinct(s),
        0 <= i < s.len(),
    ensures
        map_of(s.remove(i)) =~= map_of(s).remove(s[i].0),
        keys_distinct(s.remove(i)),
    decreases s.len(),
{
    let t = s.remove(i);
    assert forall|a: int, b: int| 0 <= a < b < t.len() implies (#[trigger] t[a]).0 != (
    #[trigger] t[b]).0 by {
        let sa: int = if a < i {
            a
        } else {
            a + 1
        };
        let sb: int = if b < i {
            b
        } else {
            b + 1
        };
        assert(t[a] == s[sa]);
        assert(t[b] == s[sb]);
    }
    if i == s.len() - 1 {
        assert(t =~= s.drop_last());
        lemma_map_of_contains(s.drop_last(), s[i].0);
        assert forall|a: int| 0 <= a < s.drop_last().len() implies (#[trigger] s.drop_last()[
        a]).0 != s[i].0 by {
            assert(s.drop_last()[a] == s[a]);
        }
        assert(!map_of(s.drop_last()).contains_key(s[i].0));
        assert(map_of(t) =~= map_of(s).remove(s[i].0));
    } else {
        assert(t.drop_last() =~= s.drop_last().remove(i));
        assert(keys_distinct(s.drop_last()));
        assert(s.drop_last()[i] == s[i]);
        lemma_map_of_remove(s.drop_last(), i);
        assert(t.last() == s.last());
        assert(s[i].0 != s.last().0);
        assert(map_of(t) =~= map_of(s).remove(s[i].0));
    }
}

/// Every name bound in the map points into the declaration table.
pub open spec fn names_in_range(m: Map<Place, Name>, d: Seq<DeclView>) -> bool {
    forall|p: Place| m.contains_key(p) ==> (#[trigger] m[p]).0 < d.len()
}

/// What resolving a place does, at the specification level: the updated
/// binding map, the updated declaration table, and the name the place
/// resolves to. A memoized binding is returned unchanged; otherwise a
/// dereference projection resolves its base, tags the base's declaration
/// with the dereference, and materializes a fresh name for the pointed-to
/// value. `None` is a read of a location holding no value, or a binding
/// that escapes the declaration table.
pub open spec fn resolve_spec(
    m: Map<Place, Name>,
    d: Seq<DeclView>,
    plc: Place,
    nid: NodeId,
) -> Option<(Map<Place, Name>, Seq<DeclView>, Name)>
    decreases plc.derefs,
{
    if m.contains_key(plc) {
        Some((m, d, m[plc]))
    } else if plc.derefs == 0 {
        None
    } else {
        match resolve_spec(m, d, plc.base(), nid) {
            None => None,
            Some((m1, d1, base_nm)) => {
                if base_nm.0 < d1.len() && d1.len() < usize::MAX {
                    let tagged = d1.update(
                        base_nm.0 as int,
                        d1[base_nm.0 as int].with_prop(MirVariableProp::IsDerefed(nid)),
                    );
                    let fresh = Name(d1.len() as usize);
                    Some(
                        (
                            m1.insert(plc, fresh),
                            tagged.push(d1[base_nm.0 as int].cleared()),
                            fresh,
                        ),
                    )
                } else {
                    None
                }
            },
        }
    }
}

/// The per-frame symbolic memory snapshot.
pub struct Memory {
    assignments: Vec<(Place, Name)>,
}

impl View for Memory {
    type V = Map<Place, Name>;

    closed spec fn view(&self) -> Map<Place, Name> {
        map_of(self.assignments@)
    }
}

impl Memory {
    /// The internal association list never binds a location twice.
    pub closed spec fn inv(self) -> bool {
        keys_distinct(self.assignments@)
    }

    /// An empty snapshot.
    pub fn new() -> (r: Memory)
        ensures
            r@ == Map::<Place, Name>::empty(),
            r.inv(),
    {
        Memory { assignments: Vec::new() }
    }

    /// The index of the entry binding `plc`, if any.
    fn find(&self, plc: Place) -> (r: Option<usize>)
        ensures
            match r {
                Some(i) => i < self.assignments@.len() && self.assignments@[i as int].0 == plc,
                None => forall|i: int|
                    0 <= i < self.assignments@.len() ==> (#[trigger] self.assignments@[i]).0
                        != plc,
            },
    {
        let mut i: usize = 0;
        while i < self.assignments.len()
            invariant
                i <= self.assignments@.len(),
                forall|j: int|
                    0 <= j < i ==> (#[trigger] self.assignments@[j]).0 != plc,
            decreases self.assignments@.len() - i,
        {
            if self.assignments[i].0 == plc {
                return Some(i);
            }
            i = i + 1;
        }
        None
    }

    /// The name currently bound to a location, if any.
    pub fn lookup(&self, plc: Place) -> (r: Option<Name>)
        requires
            self.inv(),
        ensures
            match r {
                Some(nm) => self@.contains_key(plc) && self@[plc] == nm,
                None => !self@.contains_key(plc),
            },
    {
        proof {
            lemma_map_of_contains(self.assignments@, plc);
        }
        match self.find(plc) {
            Some(i) => {
                proof {
                    lemma_map_of_index(self.assignments@, i as int);
                }
                Some(self.assignments[i].1)
            },
            None => None,
        }
    }

    /// Overwrites the binding for a location.
    pub fn bind(&mut self, plc: Place, nm: Name)
        requires
            old(self).inv(),
        ensures
            final(self)@ == old(self)@.insert(plc, nm),
            final(self).inv(),
    {
        proof {
            lemma_map_of_contains(self.assignments@, plc);
        }
        match self.find(plc) {
            Some(i) => {
                proof {
                    lemma_map_of_update(self.assignments@, i as int, nm);
                }
                let slot = &mut self.assignments[i];
                *slot = (plc, nm);
                proof {
                    assert(final(self).assignments@ =~= old(self).assignments@.update(
                        i as int,
                        (plc, nm),
                    ));
                }
            },
            None => {
                self.assignments.push((plc, nm));
                proof {
                    assert(self.assignments@.drop_last() =~= old(self).assignments@);
                    assert(final(self)@ =~= old(self)@.insert(plc, nm));
                    assert(keys_distinct(final(self).assignments@));
                }
            },
        }
    }

    /// Drops the binding for a location, if it exists.
    pub fn unbind(&mut self, plc: Place)
        requires
            old(self).inv(),
        ensures
            final(self)@ == old(self)@.remove(plc),
            final(self).inv(),
    {
        proof {
            lemma_map_of_contains(self.assignments@, plc);
        }
        match self.find(plc) {
            Some(i) => {
                proof {
                    lemma_map_of_remove(self.assignments@, i as int);
                }
                let _ = self.assignments.remove(i);
            },
            None => {
                proof {
                    assert(!old(self)@.contains_key(plc));
                    assert(final(self)@ =~= old(self)@.remove(plc));
                }
            },
        }
    }

    /// Deep-clones the snapshot for a forked frame; the copies evolve
    /// independently.
    pub fn fork(&self) -> (r: Memory)
        requires
            self.inv(),
        ensures
            r@ == self@,
            r.inv(),
    {
        let mut copied: Vec<(Place, Name)> = Vec::new();
        let mut i: usize = 0;
        while i < self.assignments.len()
            invariant
                i <= self.assignments@.len(),
                copied@ == self.assignments@.take(i as int),
            decreases self.assignments@.len() - i,
        {
            copied.push(self.assignments[i]);
            proof {
                assert(copied@ =~= self.assignments@.take(i + 1));
            }
            i = i + 1;
        }
        proof {
            assert(self.assignments@.take(self.assignments@.len() as int)
                =~= self.assignments@);
        }
        Memory { assignments: copied }
    }

    /// Resolves a place to the name holding its value, materializing and
    /// memoizing pointed-to values on the way, and tagging each dereferenced
    /// pointer's declaration with the node under construction.
    pub fn resolve(&mut self, plc: Place, nid: NodeId, sir: &mut Sir) -> (r: Result<
        Name,
        ExecError,
    >)
        requires
            old(self).inv(),
        ensures
            final(self).inv(),
            final(sir).node_stmts() == old(sir).node_stmts(),
            final(sir).fwd() == old(sir).fwd(),
            final(sir).bwd() == old(sir).bwd(),
            match r {
                Ok(nm) => resolve_spec(old(self)@, old(sir).decls(), plc, nid) == Some(
                    (final(self)@, final(sir).decls(), nm),
                ),
                Err(e) => {
                    &&& e == ExecError::UnboundPlace
                    &&& resolve_spec(old(self)@, old(sir).decls(), plc, nid) is None
                },
            },
        decreases plc.derefs,
    {
        match self.lookup(plc) {
            Some(nm) => {
                return Ok(nm);
            },
            None => {},
        }
        if plc.derefs == 0 {
            return Err(ExecError::UnboundPlace);
        }
        let ghost m0 = old(self)@;
        let ghost d0 = old(sir).decls();
        let base = Place { local: plc.local, derefs: plc.derefs - 1 };
        proof {
            assert(base == plc.base());
        }
        let base_nm = match self.resolve(base, nid, sir) {
            Ok(nm) => nm,
            Err(e) => {
                return Err(e);
            },
        };
        let ghost d1 = sir.decls();
        let n = sir.num_declarations();
        if base_nm.0 >= n || n == usize::MAX {
            return Err(ExecError::UnboundPlace);
        }
        sir.add_property_to_declaration(base_nm, MirVariableProp::IsDerefed(nid));
        let fresh_decl = sir.get_declaration(base_nm).new_declaration();
        let ghost fd = fresh_decl@;
        let fresh = sir.add_declaration(fresh_decl);
        self.bind(plc, fresh);
        proof {
            let tag = MirVariableProp::IsDerefed(nid);
            let tagged = d1.update(
                base_nm.0 as int,
                d1[base_nm.0 as int].with_prop(tag),
            );
            assert(fd =~= d1[base_nm.0 as int].cleared());
            assert(final(sir).decls() =~= tagged.push(d1[base_nm.0 as int].cleared()));
            assert(resolve_spec(m0, d0, plc, nid) == Some(
                (final(self)@, final(sir).decls(), fresh),
            ));
        }
        Ok(fresh)
    }
}

/// What evaluating an operand does, at the specification level: a copied
/// place resolves (materializing through pointers as needed), a moved
/// place resolves and then loses its binding, and a constant denotes its
/// symbolic value under its static type.
pub open spec fn operand_spec(
    m: Map<Place, Name>,
    d: Seq<DeclView>,
    rand: Operand,
    nid: NodeId,
) -> Option<(Map<Place, Name>, Seq<DeclView>, Expr)> {
    match rand {
        Operand::Copy(plc) => match resolve_spec(m, d, plc, nid) {
            Some((m1, d1, nm)) => Some((m1, d1, Expr::Ref(nm))),
            None => None,
        },
        Operand::Move(plc) => match resolve_spec(m, d, plc, nid) {
            Some((m1, d1, nm)) => Some((m1.remove(plc), d1, Expr::Ref(nm))),
            None => None,
        },
        Operand::Constant(sc, ty) => match scalar_symty(sc, ty) {
            Some(v) => Some((m, d, Expr::Value(v))),
            None => None,
        },
    }
}

/// An operand outside the supported subset is a constant of an unsupported
/// static type; place operands can only fail dynamically.
pub open spec fn operand_supported(rand: Operand) -> bool {
    match rand {
        Operand::Constant(sc, ty) => scalar_symty(sc, ty) is Some,
        _ => true,
    }
}

/// What a fresh write to a place does, at the specification level: the old
/// binding is resolved (so a write through a pointer still counts as a
/// dereference), a fresh name of the same type is declared, and the place
/// is rebound to it — every write produces a logically new value.
pub open spec fn write_fresh_spec(
    m: Map<Place, Name>,
    d: Seq<DeclView>,
    plc: Place,
    nid: NodeId,
) -> Option<(Map<Place, Name>, Seq<DeclView>, Name)> {
    match resolve_spec(m, d, plc, nid) {
        None => None,
        Some((m1, d1, nm)) => {
            if nm.0 < d1.len() && d1.len() < usize::MAX {
                let fresh = Name(d1.len() as usize);
                Some((m1.insert(plc, fresh), d1.push(d1[nm.0 as int].cleared()), fresh))
            } else {
                None
            }
        },
    }
}

impl Memory {
    /// Reads a place without invalidating it; a dereference projection is
    /// materialized and memoized on first read.
    pub fn read_copy(&mut self, plc: Place, nid: NodeId, sir: &mut Sir) -> (r: Result<
        Name,
        ExecError,
    >)
        requires
            old(self).inv(),
        ensures
            final(self).inv(),
            final(sir).node_stmts() == old(sir).node_stmts(),
            final(sir).fwd() == old(sir).fwd(),
            final(sir).bwd() == old(sir).bwd(),
            match r {
                Ok(nm) => resolve_spec(old(self)@, old(sir).decls(), plc, nid) == Some(
                    (final(self)@, final(sir).decls(), nm),
                ),
                Err(e) => {
                    &&& e == ExecError::UnboundPlace
                    &&& resolve_spec(old(self)@, old(sir).decls(), plc, nid) is None
                },
            },
    {
        self.resolve(plc, nid, sir)
    }

    /// Reads a place and removes its binding: a later read of the identical
    /// unmodified place in the same frame cannot see the moved-out name.
    pub fn read_move(&mut self, plc: Place, nid: NodeId, sir: &mut Sir) -> (r: Result<
        Name,
        ExecError,
    >)
        requires
            old(self).inv(),
        ensures
            final(self).inv(),
            final(sir).node_stmts() == old(sir).node_stmts(),
            final(sir).fwd() == old(sir).fwd(),
            final(sir).bwd() == old(sir).bwd(),
            match r {
                Ok(nm) => resolve_spec(old(self)@, old(sir).decls(), plc, nid) matches Some(t)
                    && nm == t.2 && final(sir).decls() == t.1 && final(self)@ == t.0.remove(plc)
                    && !final(self)@.contains_key(plc),
                Err(e) => {
                    &&& e == ExecError::UnboundPlace
                    &&& resolve_spec(old(self)@, old(sir).decls(), plc, nid) is None
                },
            },
    {
        let nm = match self.resolve(plc, nid, sir) {
            Ok(n) => n,
            Err(e) => {
                return Err(e);
            },
        };
        self.unbind(plc);
        Ok(nm)
    }

    /// Rebinds a place to a freshly declared name of its current type: the
    /// target of an assignment holds a logically new value afterwards.
    pub fn write_fresh(&mut self, plc: Place, nid: NodeId, sir: &mut Sir) -> (r: Result<
        Name,
        ExecError,
    >)
        requires
            old(self).inv(),
        ensures
            final(self).inv(),
            final(sir).node_stmts() == old(sir).node_stmts(),
            final(sir).fwd() == old(sir).fwd(),
            final(sir).bwd() == old(sir).bwd(),
            match r {
                Ok(nm) => write_fresh_spec(old(self)@, old(sir).decls(), plc, nid) == Some(
                    (final(self)@, final(sir).decls(), nm),
                ),
                Err(e) => {
                    &&& e == ExecError::UnboundPlace
                    &&& write_fresh_spec(old(self)@, old(sir).decls(), plc, nid) is None
                },
            },
    {
        let old_nm = match self.resolve(plc, nid, sir) {
            Ok(n) => n,
            Err(e) => {
                return Err(e);
            },
        };
        let n = sir.num_declarations();
        if old_nm.0 >= n || n == usize::MAX {
            return Err(ExecError::UnboundPlace);
        }
        let decl = sir.get_declaration(old_nm).new_declaration();
        let new_nm = sir.add_declaration(decl);
        self.bind(plc, new_nm);
        Ok(new_nm)
    }

    /// Declares and binds a newly live local slot of the given static type.
    pub fn add_new_var(
        &mut self,
        plc: Place,
        ty: StaticTy,
        origin: Option<Origin>,
        sir: &mut Sir,
    ) -> (r: Result<Name, ExecError>)
        requires
            old(self).inv(),
        ensures
            final(self).inv(),
            final(sir).node_stmts() == old(sir).node_stmts(),
            final(sir).fwd() == old(sir).fwd(),
            final(sir).bwd() == old(sir).bwd(),
            match r {
                Ok(nm) => decl_of(ty, origin) matches Some(dv) && final(sir).decls() == old(
                    sir,
                ).decls().push(dv) && nm.0 == old(sir).decls().len() && final(self)@ == old(
                    self,
                )@.insert(plc, nm),
                Err(e) => {
                    &&& e == ExecError::UnsupportedConstruct
                    &&& decl_of(ty, origin) is None
                    &&& final(self)@ == old(self)@
                    &&& final(sir).decls() == old(sir).decls()
                },
            },
    {
        let decl = match crate::sir::Declaration::decl_from(ty, origin) {
            Some(d) => d,
            None => {
                return Err(ExecError::UnsupportedConstruct);
            },
        };
        let nm = sir.add_declaration(decl);
        self.bind(plc, nm);
        Ok(nm)
    }

    /// Evaluates an operand to an assertion term: a copied or moved place
    /// becomes a reference to its resolved name, a constant becomes its
    /// symbolic value.
    pub fn process_operand(&mut self, rand: &Operand, nid: NodeId, sir: &mut Sir) -> (r: Result<
        Expr,
        ExecError,
    >)
        requires
            old(self).inv(),
        ensures
            final(self).inv(),
            final(sir).node_stmts() == old(sir).node_stmts(),
            final(sir).fwd() == old(sir).fwd(),
            final(sir).bwd() == old(sir).bwd(),
            match r {
                Ok(e) => operand_spec(old(self)@, old(sir).decls(), *rand, nid) == Some(
                    (final(self)@, final(sir).decls(), e),
                ),
                Err(err) => {
                    &&& operand_spec(old(self)@, old(sir).decls(), *rand, nid) is None
                    &&& match *rand {
                        Operand::Constant(_, _) => {
                            &&& err == ExecError::UnsupportedConstruct
                            &&& final(self)@ == old(self)@
                            &&& final(sir).decls() == old(sir).decls()
                        },
                        _ => err == ExecError::UnboundPlace,
                    }
                },
            },
    {
        match rand {
            Operand::Copy(plc) => {
                match self.read_copy(*plc, nid, sir) {
                    Ok(nm) => Ok(Expr::Ref(nm)),
                    Err(e) => Err(e),
                }
            },
            Operand::Move(plc) => {
                match self.read_move(*plc, nid, sir) {
                    Ok(nm) => Ok(Expr::Ref(nm)),
                    Err(e) => Err(e),
                }
            },
            Operand::Constant(sc, ty) => {
                match SymTy::from_scalar(*sc, *ty) {
                    Some(v) => Ok(Expr::Value(v)),
                    None => Err(ExecError::UnsupportedConstruct),
                }
            },
        }
    }
}

/// Law: once a move has read a place, its binding is gone. A second read
/// of the identical unmodified place never returns the moved-out name: a
/// base local fails to resolve at all, and a dereference projection
/// re-materializes a strictly fresher name.
pub proof fn lemma_move_invalidation(
    m: Map<Place, Name>,
    d: Seq<DeclView>,
    plc: Place,
    nid: NodeId,
    nid2: NodeId,
)
    requires
        names_in_range(m, d),
    ensures
        resolve_spec(m, d, plc, nid) matches Some(t) ==> {
            &&& !t.0.remove(plc).contains_key(plc)
            &&& (plc.derefs == 0 ==> resolve_spec(t.0.remove(plc), t.1, plc, nid2) is None)
            &&& (resolve_spec(t.0.remove(plc), t.1, plc, nid2) matches Some(u) ==> u.2 != t.2)
        },
{
    lemma_resolve_frame(m, d, plc, nid);
    match resolve_spec(m, d, plc, nid) {
        None => {},
        Some((m1, d1, nm)) => {
            let m2 = m1.remove(plc);
            lemma_resolve_frame(m2, d1, plc, nid2);
            match resolve_spec(m2, d1, plc, nid2) {
                None => {},
                Some((m3, d3, nm2)) => {
                    assert(!m2.contains_key(plc));
                    assert(nm2.0 == d3.len() - 1 && d3.len() > d1.len());
                    assert(nm.0 < d1.len());
                },
            }
        },
    }
}

/// Law: the first read of `*base` in a snapshot tags the pointer's
/// declaration with exactly one dereference fact for the node under
/// construction, touches no other declaration's facts, and binds the
/// projection to one fresh, fact-free name; a repeated read of the same
/// unmodified projection reuses the memoized name and changes nothing, so
/// no second tag appears.
pub proof fn lemma_deref_tagging_round_trip(
    m: Map<Place, Name>,
    d: Seq<DeclView>,
    plc: Place,
    nid: NodeId,
)
    requires
        plc.derefs == 1,
        !m.contains_key(plc),
        m.contains_key(plc.base()),
        m[plc.base()].0 < d.len(),
        d.len() < usize::MAX,
    ensures
        ({
            let bn = m[plc.base()];
            let fresh = Name(d.len() as usize);
            let d1 = d.update(
                bn.0 as int,
                d[bn.0 as int].with_prop(MirVariableProp::IsDerefed(nid)),
            ).push(d[bn.0 as int].cleared());
            let m1 = m.insert(plc, fresh);
            &&& resolve_spec(m, d, plc, nid) == Some((m1, d1, fresh))
            &&& d1[bn.0 as int].props == d[bn.0 as int].props.push(
                MirVariableProp::IsDerefed(nid),
            )
            &&& forall|i: int|
                0 <= i < d.len() && i != bn.0 ==> (#[trigger] d1[i]).props == d[i].props
            &&& d1[d.len() as int].props == Seq::<MirVariableProp>::empty()
            &&& resolve_spec(m1, d1, plc, nid) == Some((m1, d1, fresh))
        }),
{
    let bn = m[plc.base()];
    assert(resolve_spec(m, d, plc.base(), nid) == Some((m, d, bn)));
}

/// Structural facts about resolution: the declaration table only grows, the
/// resolved place ends up bound to the returned name, an unbound place
/// resolves to the freshest name, a result name outside the table can only
/// come from a stale memoized binding (in which case nothing changed), and
/// in-range bindings stay in range.
pub proof fn lemma_resolve_frame(m: Map<Place, Name>, d: Seq<DeclView>, plc: Place, nid: NodeId)
    ensures
        resolve_spec(m, d, plc, nid) matches Some(t) ==> {
            &&& t.1.len() >= d.len()
            &&& (t.2.0 >= t.1.len() ==> t.0 == m && t.1 == d)
            &&& t.0.contains_key(plc) && t.0[plc] == t.2
            &&& (!m.contains_key(plc) ==> t.1.len() > d.len() && t.2.0 == t.1.len() - 1)
            &&& (names_in_range(m, d) ==> names_in_range(t.0, t.1) && t.2.0 < t.1.len())
        },
    decreases plc.derefs,
{
    if m.contains_key(plc) {
    } else if plc.derefs == 0 {
    } else {
        lemma_resolve_frame(m, d, plc.base(), nid);
        match resolve_spec(m, d, plc.base(), nid) {
            None => {},
            Some((m1, d1, base_nm)) => {
                if base_nm.0 < d1.len() && d1.len() < usize::MAX {
                    let fresh = Name(d1.len() as usize);
                    let mr = m1.insert(plc, fresh);
                    let dr = d1.update(
                        base_nm.0 as int,
                        d1[base_nm.0 as int].with_prop(MirVariableProp::IsDerefed(nid)),
                    ).push(d1[base_nm.0 as int].cleared());
                    if names_in_range(m, d) {
                        assert forall|p: Place| mr.contains_key(p) implies (
                        #[trigger] mr[p]).0 < dr.len() by {
                            if p != plc {
                                assert(m1.contains_key(p));
                            }
                        }
                    }
                }
            },
        }
    }
}

} // verus!
