//! Aegis' small, auditable capability model (the LeaseTree).
//!
//! User space names a slot, never a kernel object address. The kernel resolves
//! that slot through the caller's CSpace. Derived nodes form a revocation tree.
use vstd::prelude::*;

verus! {

pub type TaskId = usize;

/// A kernel object that a capability names.
#[derive(Clone, Copy, Debug, PartialEq, Eq, Structural)]
pub enum Object {
    Endpoint(u16),
    Frame(u32),
    Thread(TaskId),
    Irq(u16),
    Mmio { base: u64, pages: u16 },
}

/// A set of access rights, one bit per right.
#[derive(Clone, Copy, Debug, PartialEq, Eq, Structural)]
pub struct Rights(u8);

impl Rights {
    /// The bit pattern of the rights.
    pub closed spec fn bits(self) -> u8 {
        self.0
    }

    /// The rights with the given bit pattern.
    pub closed spec fn from_bits(bits: u8) -> Rights {
        Rights(bits)
    }

    pub proof fn lemma_from_bits(bits: u8)
        ensures
            Rights::from_bits(bits).bits() == bits,
    {
    }

    /// Every right of `requested` is also a right of `self`.
    pub open spec fn includes(self, requested: Rights) -> bool {
        self.bits() & requested.bits() == requested.bits()
    }

    /// The rights held by `self` or by `other`.
    pub closed spec fn join(self, other: Rights) -> Rights {
        Rights(self.0 | other.0)
    }

    pub fn none() -> (r: Rights)
        ensures
            r.bits() == 0,
            r == Rights::from_bits(0),
    {
        Rights(0)
    }

    pub fn read() -> (r: Rights)
        ensures
            r.bits() == 1,
            r == Rights::from_bits(1),
    {
        Rights(1)
    }

    pub fn write() -> (r: Rights)
        ensures
            r.bits() == 2,
            r == Rights::from_bits(2),
    {
        Rights(2)
    }

    pub fn grant() -> (r: Rights)
        ensures
            r.bits() == 4,
            r == Rights::from_bits(4),
    {
        Rights(4)
    }

    pub fn control() -> (r: Rights)
        ensures
            r.bits() == 8,
            r == Rights::from_bits(8),
    {
        Rights(8)
    }

    pub fn all() -> (r: Rights)
        ensures
            r.bits() == 0x0f,
            r == Rights::from_bits(0x0f),
    {
        Rights(0x0f)
    }

    pub fn union(self, other: Rights) -> (r: Rights)
        ensures
            r == self.join(other),
            r.bits() == self.bits() | other.bits(),
    {
        Rights(self.0 | other.0)
    }

    pub fn contains(self, requested: Rights) -> (r: bool)
        ensures
            r == self.includes(requested),
    {
        self.0 & requested.0 == requested.0
    }

    /// Two rights values with the same bits are the same value.
    pub proof fn lemma_bits_determine(a: Rights, b: Rights)
        requires
            a.bits() == b.bits(),
        ensures
            a == b,
    {
    }

    /// Every rights value includes itself.
    pub proof fn lemma_includes_reflexive(a: Rights)
        ensures
            a.includes(a),
    {
        let x = a.bits();
        assert(x & x == x) by (bit_vector);
    }

    /// Inclusion is transitive: attenuating twice is an attenuation.
    pub proof fn lemma_includes_transitive(a: Rights, b: Rights, c: Rights)
        requires
            a.includes(b),
            b.includes(c),
        ensures
            a.includes(c),
    {
        let (x, y, z) = (a.bits(), b.bits(), c.bits());
        assert(x & y == y && y & z == z ==> x & z == z) by (bit_vector);
    }

    /// Two rights values that include each other are equal.
    pub proof fn lemma_includes_antisymmetric(a: Rights, b: Rights)
        requires
            a.includes(b),
            b.includes(a),
        ensures
            a == b,
    {
        let (x, y) = (a.bits(), b.bits());
        assert(x & y == y && y & x == x ==> x == y) by (bit_vector);
    }

    /// The rights carry GRANT, the authority to mint.
    pub open spec fn has_grant(self) -> bool {
        self.bits() & 4 == 4
    }

    /// The union includes both operands, and it is the least such rights value.
    pub proof fn lemma_join_is_least_upper_bound(a: Rights, b: Rights, c: Rights)
        ensures
            a.join(b).includes(a),
            a.join(b).includes(b),
            c.includes(a) && c.includes(b) ==> c.includes(a.join(b)),
            a.join(b) == b.join(a),
    {
        let (x, y, z) = (a.bits(), b.bits(), c.bits());
        assert((x | y) & x == x) by (bit_vector);
        assert((x | y) & y == y) by (bit_vector);
        assert(z & x == x && z & y == y ==> z & (x | y) == (x | y)) by (bit_vector);
        assert(x | y == y | x) by (bit_vector);
    }

    /// Every rights value includes the empty set of rights.
    pub proof fn lemma_includes_none(a: Rights, n: Rights)
        requires
            n.bits() == 0,
        ensures
            a.includes(n),
    {
        let (x, y) = (a.bits(), n.bits());
        assert(y == 0 ==> x & y == y) by (bit_vector);
    }
}

/// A kernel-internal reference to a derivation node, stamped with the node's generation.
#[derive(Clone, Copy, Debug, PartialEq, Eq, Structural)]
pub struct CapRef {
    node: u16,
    generation: u16,
}

impl CapRef {
    /// The index of the node that the reference names.
    pub closed spec fn index(self) -> int {
        self.node as int
    }
}

#[derive(Clone, Copy, Debug, PartialEq, Eq, Structural)]
pub struct ResolvedCapability {
    pub object: Object,
    pub rights: Rights,
}

#[derive(Clone, Copy, Debug, PartialEq, Eq, Structural)]
pub enum CapError {
    BadTask,
    BadSlot,
    EmptySlot,
    DestinationOccupied,
    OutOfNodes,
    Stale,
    PermissionDenied,
}

/// A kernel-owned derivation node.
#[derive(Clone, Copy)]
pub struct Node {
    pub object: Object,
    pub rights: Rights,
    pub parent: Option<CapRef>,
    pub generation: u16,
    pub live: bool,
}

fn empty_node() -> (n: Node)
    ensures
        !n.live,
        n.generation == 0,
        n.parent is None,
        n.rights == Rights::from_bits(0),
        n.object == Object::Endpoint(0),
{
    Node { object: Object::Endpoint(0), rights: Rights::none(), parent: None, generation: 0, live: false }
}

/// The generation a node takes when it is revoked.
pub open spec fn next_generation(g: u16) -> u16 {
    if g == 0xffff {
        0
    } else {
        (g + 1) as u16
    }
}

/// The mathematical state of a capability system: one row of slots per task, and the nodes.
#[verifier::ext_equal]
pub struct CapState {
    pub spaces: Seq<Seq<Option<CapRef>>>,
    pub nodes: Seq<Node>,
}

/// `cap`, or a reference reached from it through at most `fuel` parent links, is `root`.
pub closed spec fn reaches(nodes: Seq<Node>, cap: CapRef, root: CapRef, fuel: nat) -> bool
    decreases fuel,
{
    if cap == root {
        true
    } else if cap.node >= nodes.len() {
        false
    } else {
        match nodes[cap.node as int].parent {
            None => false,
            Some(p) => if fuel == 0 {
                false
            } else {
                reaches(nodes, p, root, (fuel - 1) as nat)
            },
        }
    }
}

/// `r` names a live node under the node's current generation.
pub closed spec fn valid_ref(nodes: Seq<Node>, r: CapRef) -> bool {
    &&& r.node < nodes.len()
    &&& nodes[r.node as int].live
    &&& nodes[r.node as int].generation == r.generation
}

/// A slot entry after stale references have been cleared.
pub closed spec fn cleared(nodes: Seq<Node>, entry: Option<CapRef>) -> Option<CapRef> {
    match entry {
        Some(r) => if valid_ref(nodes, r) {
            entry
        } else {
            None
        },
        None => None,
    }
}

impl CapState {
    /// The capability reference held in a slot, or why there is none.
    pub open spec fn slot_entry(self, task: int, slot: int) -> Result<CapRef, CapError> {
        if !(0 <= task < self.spaces.len()) {
            Err(CapError::BadTask)
        } else if !(0 <= slot < self.spaces[task].len()) {
            Err(CapError::BadSlot)
        } else {
            match self.spaces[task][slot] {
                Some(c) => Ok(c),
                None => Err(CapError::EmptySlot),
            }
        }
    }

    /// A slot that can receive a new capability, or why it cannot.
    pub open spec fn destination(self, task: int, slot: int) -> Result<(), CapError> {
        match self.slot_entry(task, slot) {
            Ok(_) => Err(CapError::DestinationOccupied),
            Err(CapError::EmptySlot) => Ok(()),
            Err(e) => Err(e),
        }
    }

    /// What a reference names, provided it is not stale.
    pub closed spec fn resolve_ref(self, cap: CapRef) -> Result<ResolvedCapability, CapError> {
        if valid_ref(self.nodes, cap) {
            Ok(
                ResolvedCapability {
                    object: self.nodes[cap.node as int].object,
                    rights: self.nodes[cap.node as int].rights,
                },
            )
        } else {
            Err(CapError::Stale)
        }
    }

    /// The capability a task holds in a slot, provided it carries the required rights.
    pub open spec fn resolve(self, task: int, slot: int, required: Rights) -> Result<
        ResolvedCapability,
        CapError,
    > {
        match self.slot_entry(task, slot) {
            Err(e) => Err(e),
            Ok(cap) => match self.resolve_ref(cap) {
                Err(e) => Err(e),
                Ok(r) => if r.rights.includes(required) {
                    Ok(r)
                } else {
                    Err(CapError::PermissionDenied)
                },
            },
        }
    }

    /// `i` is the least index of a node that is not live.
    pub open spec fn is_first_free(self, i: int) -> bool {
        &&& 0 <= i < self.nodes.len()
        &&& !self.nodes[i].live
        &&& forall|j: int| 0 <= j < i ==> #[trigger] self.nodes[j].live
    }

    /// Some node is free.
    pub open spec fn has_free(self) -> bool {
        exists|i: int| 0 <= i < self.nodes.len() && !#[trigger] self.nodes[i].live
    }

    /// The least index of a free node.
    pub open spec fn first_free(self) -> int {
        choose|i: int| self.is_first_free(i)
    }

    /// Install a new live node in the first free node; the node keeps its generation.
    pub closed spec fn allocate(self, object: Object, rights: Rights, parent: Option<CapRef>) -> (
        CapState,
        Result<CapRef, CapError>,
    ) {
        if self.has_free() {
            let i = self.first_free();
            let g = self.nodes[i].generation;
            (
                CapState {
                    nodes: self.nodes.update(
                        i,
                        Node { object, rights, parent, generation: g, live: true },
                    ),
                    ..self
                },
                Ok(CapRef { node: i as u16, generation: g }),
            )
        } else {
            (self, Err(CapError::OutOfNodes))
        }
    }

    /// The state with one slot replaced.
    pub open spec fn with_slot(self, task: int, slot: int, entry: Option<CapRef>) -> CapState {
        CapState { spaces: self.spaces.update(task, self.spaces[task].update(slot, entry)), ..self }
    }

    /// A root capability for `object` with `rights`, installed in an empty slot of `owner`.
    pub open spec fn create_root(self, owner: int, slot: int, object: Object, rights: Rights) -> (
        CapState,
        Result<(), CapError>,
    ) {
        match self.destination(owner, slot) {
            Err(e) => (self, Err(e)),
            Ok(_) => {
                let (s1, r) = self.allocate(object, rights, None);
                match r {
                    Err(e) => (s1, Err(e)),
                    Ok(cap) => (s1.with_slot(owner, slot, Some(cap)), Ok(())),
                }
            },
        }
    }

    /// A child of the source capability with `rights`, installed in an empty destination slot.
    /// The source must carry GRANT and every requested right.
    pub open spec fn mint(
        self,
        source_task: int,
        source_slot: int,
        destination_task: int,
        destination_slot: int,
        rights: Rights,
    ) -> (CapState, Result<(), CapError>) {
        match self.destination(destination_task, destination_slot) {
            Err(e) => (self, Err(e)),
            Ok(_) => match self.slot_entry(source_task, source_slot) {
                Err(e) => (self, Err(e)),
                Ok(parent) => match self.resolve_ref(parent) {
                    Err(e) => (self, Err(e)),
                    Ok(resolved) => if !resolved.rights.has_grant() || !resolved.rights.includes(
                        rights,
                    ) {
                        (self, Err(CapError::PermissionDenied))
                    } else {
                        let (s1, r) = self.allocate(resolved.object, rights, Some(parent));
                        match r {
                            Err(e) => (s1, Err(e)),
                            Ok(child) => (
                                s1.with_slot(destination_task, destination_slot, Some(child)),
                                Ok(()),
                            ),
                        }
                    },
                },
            },
        }
    }

    /// Node `i` is live and lies in the derivation subtree of `root`.
    pub closed spec fn in_subtree(self, root: CapRef, i: int) -> bool {
        &&& self.nodes[i].live
        &&& reaches(
            self.nodes,
            CapRef { node: i as u16, generation: self.nodes[i].generation },
            root,
            self.nodes.len(),
        )
    }

    /// How many of the first `k` nodes lie in the subtree of `root`.
    pub closed spec fn subtree_count(self, root: CapRef, k: nat) -> nat
        decreases k,
    {
        if k == 0 {
            0
        } else {
            self.subtree_count(root, (k - 1) as nat) + if self.in_subtree(root, k - 1) {
                1nat
            } else {
                0nat
            }
        }
    }

    /// The nodes after the subtree of `root` is killed: each loses liveness and advances
    /// its generation.
    pub closed spec fn revoked_nodes(self, root: CapRef) -> Seq<Node> {
        Seq::new(
            self.nodes.len(),
            |i: int|
                if self.in_subtree(root, i) {
                    Node {
                        live: false,
                        generation: next_generation(self.nodes[i].generation),
                        ..self.nodes[i]
                    }
                } else {
                    self.nodes[i]
                },
        )
    }

    /// The state after the subtree of `root` is killed and every stale slot is emptied.
    pub closed spec fn revoked(self, root: CapRef) -> CapState {
        let nodes = self.revoked_nodes(root);
        CapState {
            spaces: Seq::new(
                self.spaces.len(),
                |t: int|
                    Seq::new(self.spaces[t].len(), |s: int| cleared(nodes, self.spaces[t][s])),
            ),
            nodes,
        }
    }

    /// Revoke the capability in a slot with every capability derived from it; the
    /// result counts the killed nodes.
    pub open spec fn revoke(self, task: int, slot: int) -> (CapState, Result<usize, CapError>) {
        match self.slot_entry(task, slot) {
            Err(e) => (self, Err(e)),
            Ok(root) => match self.resolve_ref(root) {
                Err(e) => (self, Err(e)),
                Ok(_) => (
                    self.revoked(root),
                    Ok(self.subtree_count(root, self.nodes.len()) as usize),
                ),
            },
        }
    }

    /// Every slot holds either nothing or a reference to a live node under its current
    /// generation: no CSpace ever holds a stale reference.
    pub open spec fn slots_valid(self) -> bool {
        forall|t: int, s: int|
            #![trigger self.spaces[t][s]]
            0 <= t < self.spaces.len() && 0 <= s < self.spaces[t].len() && self.spaces[t][s] is Some
                ==> valid_ref(self.nodes, self.spaces[t][s].unwrap())
    }

    /// Node handles fit in 16 bits and no slot holds a stale reference.
    pub open spec fn references_valid(self) -> bool {
        &&& self.nodes.len() <= 0x10000
        &&& self.slots_valid()
    }

    /// `depth` ranks the live nodes as a forest: a live node's parent is a live node under
    /// its current generation, one level shallower; a root has depth 0; every depth is
    /// less than the number of nodes.
    pub closed spec fn ranked(self, depth: Seq<nat>) -> bool {
        &&& depth.len() == self.nodes.len()
        &&& forall|i: int|
            0 <= i < self.nodes.len() && (#[trigger] self.nodes[i]).live ==> {
                &&& depth[i] < self.nodes.len()
                &&& match self.nodes[i].parent {
                    None => depth[i] == 0,
                    Some(p) => valid_ref(self.nodes, p) && depth[i] == depth[p.node as int] + 1,
                }
            }
    }

    /// The live nodes form a derivation forest.
    pub closed spec fn is_tree(self) -> bool {
        exists|depth: Seq<nat>| self.ranked(depth)
    }

    /// No slot holds a stale reference, and the live nodes form a derivation forest.
    pub open spec fn well_formed(self) -> bool {
        &&& self.references_valid()
        &&& self.is_tree()
    }

    /// No slot holds a capability and no node is live or has a parent.
    pub open spec fn is_empty_system(self) -> bool {
        &&& forall|t: int, j: int|
            0 <= t < self.spaces.len() && 0 <= j < self.spaces[t].len() ==> (#[trigger] self.spaces[t][j]) is None
        &&& forall|i: int|
            0 <= i < self.nodes.len() ==> !(#[trigger] self.nodes[i]).live && self.nodes[i].parent is None
    }

    /// Every slot references a node that exists.
    pub closed spec fn refs_in_range(self) -> bool {
        forall|t: int, s: int|
            #![trigger self.spaces[t][s]]
            0 <= t < self.spaces.len() && 0 <= s < self.spaces[t].len() && self.spaces[t][s] is Some
                ==> self.spaces[t][s].unwrap().node < self.nodes.len()
    }
}

proof fn lemma_with_valid_slot(s: CapState, task: int, slot: int, entry: Option<CapRef>)
    requires
        s.slots_valid(),
        s.nodes.len() <= 0x10000,
        0 <= task < s.spaces.len(),
        0 <= slot < s.spaces[task].len(),
        entry is Some ==> valid_ref(s.nodes, entry.unwrap()),
    ensures
        s.with_slot(task, slot, entry).slots_valid(),
        s.with_slot(task, slot, entry).nodes == s.nodes,
{
    let n = s.with_slot(task, slot, entry);
    assert forall|k: int, j: int|
        #![trigger n.spaces[k][j]]
        0 <= k < n.spaces.len() && 0 <= j < n.spaces[k].len() && n.spaces[k][j] is Some implies valid_ref(
        n.nodes,
        n.spaces[k][j].unwrap(),
    ) by {
        if k != task || j != slot {
            assert(n.spaces[k][j] == s.spaces[k][j]);
        }
    }
}

proof fn lemma_first_free_unique(s: CapState, i: int)
    requires
        s.is_first_free(i),
    ensures
        s.has_free(),
        s.first_free() == i,
{
    assert(!s.nodes[i].live);
    let k = s.first_free();
    assert(s.is_first_free(k));
    if k < i {
        assert(s.nodes[k].live);
    }
    if i < k {
        assert(s.nodes[i].live);
    }
}

proof fn lemma_reaches_depends_on_parents(a: Seq<Node>, b: Seq<Node>, cap: CapRef, root: CapRef, fuel: nat)
    requires
        a.len() == b.len(),
        forall|i: int| 0 <= i < a.len() ==> (#[trigger] a[i]).parent == b[i].parent,
    ensures
        reaches(a, cap, root, fuel) == reaches(b, cap, root, fuel),
    decreases fuel,
{
    if cap != root && cap.node < a.len() {
        assert(a[cap.node as int].parent == b[cap.node as int].parent);
        match a[cap.node as int].parent {
            None => {},
            Some(p) => {
                if fuel > 0 {
                    lemma_reaches_depends_on_parents(a, b, p, root, (fuel - 1) as nat);
                }
            },
        }
    }
}

/// Fixed-size capability state: predictable memory use and no kernel allocator.
pub struct CapabilitySystem<const TASKS: usize, const SLOTS: usize, const NODES: usize> {
    spaces: [[Option<CapRef>; SLOTS]; TASKS],
    nodes: [Node; NODES],
}

impl<const TASKS: usize, const SLOTS: usize, const NODES: usize> View for CapabilitySystem<
    TASKS,
    SLOTS,
    NODES,
> {
    type V = CapState;

    closed spec fn view(&self) -> CapState {
        CapState {
            spaces: Seq::new(TASKS as nat, |t: int| self.spaces@[t]@),
            nodes: self.nodes@,
        }
    }
}

impl<const TASKS: usize, const SLOTS: usize, const NODES: usize> CapabilitySystem<
    TASKS,
    SLOTS,
    NODES,
> {
    /// The internal invariant: node handles fit in 16 bits, no slot holds a stale reference,
    /// and the live nodes form a derivation forest.
    pub closed spec fn wf(&self) -> bool {
        self@.well_formed()
    }

    /// The model has one row of `SLOTS` slots per task and `NODES` nodes, and the internal
    /// invariant is exactly the model's well-formedness.
    pub proof fn lemma_view(&self)
        ensures
            self@.spaces.len() == TASKS,
            forall|t: int| 0 <= t < TASKS ==> (#[trigger] self@.spaces[t]).len() == SLOTS,
            self@.nodes.len() == NODES,
            self.wf() == self@.well_formed(),
    {
    }

    /// An empty system: every slot empty, every node free. Node handles are 16 bits
    /// wide, so at most 65536 nodes can be named.
    pub fn new() -> (s: Self)
        requires
            NODES <= 0x10000,
        ensures
            s.wf(),
            s@.spaces.len() == TASKS,
            forall|t: int|
                0 <= t < TASKS ==> (#[trigger] s@.spaces[t]) == Seq::new(
                    SLOTS as nat,
                    |i: int| None::<CapRef>,
                ),
            s@.nodes.len() == NODES,
            forall|i: int|
                0 <= i < NODES ==> !(#[trigger] s@.nodes[i]).live && s@.nodes[i].generation == 0
                    && s@.nodes[i].parent is None && s@.nodes[i].object == Object::Endpoint(0)
                    && s@.nodes[i].rights == Rights::from_bits(0),
    {
        let empty: [Option<CapRef>; SLOTS] = [None; SLOTS];
        let s = Self { spaces: [empty; TASKS], nodes: [empty_node(); NODES] };
        proof {
            assert(s@.ranked(Seq::new(NODES as nat, |i: int| 0nat)));
            assert forall|t: int| 0 <= t < TASKS implies (#[trigger] s@.spaces[t]) == Seq::new(
                SLOTS as nat,
                |i: int| None::<CapRef>,
            ) by {
                assert(s@.spaces[t] =~= Seq::new(SLOTS as nat, |i: int| None::<CapRef>));
            }
        }
        s
    }

    pub fn create_root(&mut self, owner: TaskId, slot: usize, object: Object, rights: Rights) -> (r:
        Result<(), CapError>)
        requires
            old(self).wf(),
        ensures
            final(self).wf(),
            final(self)@ == old(self)@.create_root(owner as int, slot as int, object, rights).0,
            r == old(self)@.create_root(owner as int, slot as int, object, rights).1,
    {
        match self.check_destination(owner, slot) {
            Err(e) => return Err(e),
            Ok(_) => {},
        }
        let cap = match self.allocate(object, rights, None) {
            Err(e) => return Err(e),
            Ok(c) => c,
        };
        self.set_slot(owner, slot, Some(cap));
        proof {
            lemma_operations_keep_well_formed(old(self)@, owner as int, slot as int, 0, 0, object, rights);
        }
        Ok(())
    }

    /// Mint an attenuated child into another task. Rights may only decrease.
    pub fn mint(
        &mut self,
        source_task: TaskId,
        source_slot: usize,
        destination_task: TaskId,
        destination_slot: usize,
        rights: Rights,
    ) -> (r: Result<(), CapError>)
        requires
            old(self).wf(),
        ensures
            final(self).wf(),
            final(self)@ == old(self)@.mint(
                source_task as int,
                source_slot as int,
                destination_task as int,
                destination_slot as int,
                rights,
            ).0,
            r == old(self)@.mint(
                source_task as int,
                source_slot as int,
                destination_task as int,
                destination_slot as int,
                rights,
            ).1,
            r != Err::<(), CapError>(CapError::Stale),
    {
        proof {
            lemma_never_stale(
                self@,
                source_task as int,
                source_slot as int,
                rights,
                destination_task as int,
                destination_slot as int,
                rights,
            );
        }
        match self.check_destination(destination_task, destination_slot) {
            Err(e) => return Err(e),
            Ok(_) => {},
        }
        let parent = match self.cap_at(source_task, source_slot) {
            Err(e) => return Err(e),
            Ok(c) => c,
        };
        let resolved = match self.resolve_ref(parent) {
            Err(e) => return Err(e),
            Ok(r) => r,
        };
        if !resolved.rights.contains(Rights::grant()) || !resolved.rights.contains(rights) {
            return Err(CapError::PermissionDenied);
        }
        let child = match self.allocate(resolved.object, rights, Some(parent)) {
            Err(e) => return Err(e),
            Ok(c) => c,
        };
        self.set_slot(destination_task, destination_slot, Some(child));
        proof {
            lemma_operations_keep_well_formed(
                old(self)@,
                source_task as int,
                source_slot as int,
                destination_task as int,
                destination_slot as int,
                resolved.object,
                rights,
            );
        }
        Ok(())
    }

    pub fn resolve(&self, task: TaskId, slot: usize, required: Rights) -> (r: Result<
        ResolvedCapability,
        CapError,
    >)
        requires
            self.wf(),
        ensures
            r == self@.resolve(task as int, slot as int, required),
            r != Err::<ResolvedCapability, CapError>(CapError::Stale),
    {
        proof {
            lemma_never_stale(self@, task as int, slot as int, required, 0, 0, required);
        }
        let cap = match self.cap_at(task, slot) {
            Err(e) => return Err(e),
            Ok(c) => c,
        };
        let resolved = match self.resolve_ref(cap) {
            Err(e) => return Err(e),
            Ok(r) => r,
        };
        if !resolved.rights.contains(required) {
            return Err(CapError::PermissionDenied);
        }
        Ok(resolved)
    }

    /// Revoke a capability and every descendant minted from it.
    pub fn revoke(&mut self, task: TaskId, slot: usize) -> (r: Result<usize, CapError>)
        requires
            old(self).wf(),
        ensures
            final(self).wf(),
            final(self)@ == old(self)@.revoke(task as int, slot as int).0,
            r == old(self)@.revoke(task as int, slot as int).1,
            r != Err::<usize, CapError>(CapError::Stale),
    {
        proof {
            lemma_never_stale(self@, task as int, slot as int, Rights::from_bits(0), 0, 0, Rights::from_bits(0));
        }
        let root = match self.cap_at(task, slot) {
            Err(e) => return Err(e),
            Ok(c) => c,
        };
        match self.resolve_ref(root) {
            Err(e) => return Err(e),
            Ok(_) => {},
        }
        let ghost before = self@;
        let mut revoked: usize = 0;
        let mut index: usize = 0;
        while index < NODES
            invariant
                NODES <= 0x10000,
                index <= NODES,
                self@.spaces == before.spaces,
                self@.nodes.len() == NODES,
                before.nodes.len() == NODES,
                revoked == before.subtree_count(root, index as nat),
                revoked <= index,
                forall|i: int| 0 <= i < index ==> #[trigger] self@.nodes[i] == before.revoked_nodes(root)[i],
                forall|i: int| index <= i < NODES ==> #[trigger] self@.nodes[i] == before.nodes[i],
            decreases NODES - index,
        {
            proof {
                assert forall|i: int| 0 <= i < NODES implies (#[trigger] self@.nodes[i]).parent
                    == before.nodes[i].parent by {
                    if i < index {
                        assert(self@.nodes[i] == before.revoked_nodes(root)[i]);
                    }
                }
                lemma_reaches_depends_on_parents(
                    self@.nodes,
                    before.nodes,
                    CapRef { node: index as u16, generation: before.nodes[index as int].generation },
                    root,
                    NODES as nat,
                );
            }
            if self.nodes[index].live && self.is_descendant_or_self(index, root) {
                assert(before.in_subtree(root, index as int));
                let mut node = self.nodes[index];
                node.live = false;
                node.generation = node.generation.wrapping_add(1);
                self.nodes[index] = node;
                revoked += 1;
            } else {
                assert(!before.in_subtree(root, index as int));
            }
            index += 1;
        }
        proof {
            assert(self@.nodes =~= before.revoked_nodes(root));
        }
        let ghost after_nodes = self@.nodes;
        let mut t: usize = 0;
        while t < TASKS
            invariant
                NODES <= 0x10000,
                t <= TASKS,
                self@.nodes == after_nodes,
                after_nodes == before.revoked_nodes(root),
                after_nodes.len() == NODES,
                before.slots_valid(),
                before.spaces.len() == TASKS,
                forall|k: int| 0 <= k < TASKS ==> (#[trigger] before.spaces[k]).len() == SLOTS,
                forall|k: int|
                    0 <= k < t ==> #[trigger] self@.spaces[k] == before.revoked(root).spaces[k],
                forall|k: int| t <= k < TASKS ==> #[trigger] self@.spaces[k] == before.spaces[k],
            decreases TASKS - t,
        {
            let mut s: usize = 0;
            while s < SLOTS
                invariant
                    NODES <= 0x10000,
                    t < TASKS,
                    s <= SLOTS,
                    self@.nodes == after_nodes,
                    after_nodes == before.revoked_nodes(root),
                    after_nodes.len() == NODES,
                    before.slots_valid(),
                    before.spaces.len() == TASKS,
                    forall|k: int| 0 <= k < TASKS ==> (#[trigger] before.spaces[k]).len() == SLOTS,
                    forall|k: int|
                        0 <= k < t ==> #[trigger] self@.spaces[k] == before.revoked(root).spaces[k],
                    forall|k: int| t < k < TASKS ==> #[trigger] self@.spaces[k] == before.spaces[k],
                    forall|j: int|
                        0 <= j < s ==> #[trigger] self@.spaces[t as int][j] == cleared(
                            after_nodes,
                            before.spaces[t as int][j],
                        ),
                    forall|j: int|
                        s <= j < SLOTS ==> #[trigger] self@.spaces[t as int][j]
                            == before.spaces[t as int][j],
                decreases SLOTS - s,
            {
                let entry = self.spaces[t][s];
                assert(entry == self@.spaces[t as int][s as int]);
                assert(entry == before.spaces[t as int][s as int]);
                if let Some(reference) = entry {
                    let node = self.nodes[reference.node as usize];
                    if !node.live || node.generation != reference.generation {
                        self.set_slot(t, s, None);
                    }
                }
                s += 1;
            }
            proof {
                assert(self@.spaces[t as int] =~= before.revoked(root).spaces[t as int]);
            }
            t += 1;
        }
        proof {
            assert(self@.spaces =~= before.revoked(root).spaces);
            assert(self@ =~= before.revoked(root));
            lemma_operations_keep_well_formed(before, task as int, slot as int, 0, 0, Object::Endpoint(0), Rights::from_bits(0));
        }
        Ok(revoked)
    }

    fn set_slot(&mut self, task: TaskId, slot: usize, entry: Option<CapRef>)
        requires
            task < TASKS,
            slot < SLOTS,
        ensures
            final(self)@ == old(self)@.with_slot(task as int, slot as int, entry),
    {
        self.spaces[task][slot] = entry;
        proof {
            assert(self@.spaces =~= old(self)@.with_slot(task as int, slot as int, entry).spaces);
        }
    }

    fn check_destination(&self, task: TaskId, slot: usize) -> (r: Result<(), CapError>)
        ensures
            r == self@.destination(task as int, slot as int),
    {
        if task >= TASKS {
            return Err(CapError::BadTask);
        }
        if slot >= SLOTS {
            return Err(CapError::BadSlot);
        }
        if self.spaces[task][slot].is_some() {
            Err(CapError::DestinationOccupied)
        } else {
            Ok(())
        }
    }

    fn cap_at(&self, task: TaskId, slot: usize) -> (r: Result<CapRef, CapError>)
        ensures
            r == self@.slot_entry(task as int, slot as int),
    {
        if task >= TASKS {
            return Err(CapError::BadTask);
        }
        if slot >= SLOTS {
            return Err(CapError::BadSlot);
        }
        match self.spaces[task][slot] {
            Some(c) => Ok(c),
            None => Err(CapError::EmptySlot),
        }
    }

    fn resolve_ref(&self, cap: CapRef) -> (r: Result<ResolvedCapability, CapError>)
        ensures
            r == self@.resolve_ref(cap),
    {
        if cap.node as usize >= NODES {
            return Err(CapError::Stale);
        }
        let node = self.nodes[cap.node as usize];
        if !node.live || node.generation != cap.generation {
            return Err(CapError::Stale);
        }
        Ok(ResolvedCapability { object: node.object, rights: node.rights })
    }

    fn allocate(&mut self, object: Object, rights: Rights, parent: Option<CapRef>) -> (r: Result<
        CapRef,
        CapError,
    >)
        requires
            old(self).wf(),
        ensures
            final(self)@ == old(self)@.allocate(object, rights, parent).0,
            r == old(self)@.allocate(object, rights, parent).1,
            r is Err ==> *final(self) == *old(self),
    {
        let mut index: usize = 0;
        while index < NODES
            invariant
                index <= NODES,
                self == old(self),
                old(self).wf(),
                forall|j: int| 0 <= j < index ==> #[trigger] self.nodes@[j].live,
            decreases NODES - index,
        {
            if !self.nodes[index].live {
                let generation = self.nodes[index].generation;
                proof {
                    lemma_first_free_unique(self@, index as int);
                }
                self.nodes[index] = Node { object, rights, parent, generation, live: true };
                proof {
                    assert(self@ =~= old(self)@.allocate(object, rights, parent).0);
                }
                return Ok(CapRef { node: index as u16, generation });
            }
            index += 1;
        }
        proof {
            assert(!old(self)@.has_free());
        }
        Err(CapError::OutOfNodes)
    }

    fn is_descendant_or_self(&self, index: usize, root: CapRef) -> (r: bool)
        requires
            NODES <= 0x10000,
            index < NODES,
        ensures
            r == reaches(
                self@.nodes,
                (CapRef { node: index as u16, generation: self@.nodes[index as int].generation }),
                root,
                NODES as nat,
            ),
    {
        let ghost start = CapRef { node: index as u16, generation: self.nodes[index as int].generation };
        let mut current = Some(CapRef { node: index as u16, generation: self.nodes[index].generation });
        let mut depth: usize = 0;
        loop
            invariant
                NODES <= 0x10000,
                index < NODES,
                start == (CapRef { node: index as u16, generation: self@.nodes[index as int].generation }),
                self@.nodes == self.nodes@,
                depth <= NODES,
                current is Some,
                reaches(self@.nodes, start, root, NODES as nat) == reaches(
                    self@.nodes,
                    current.unwrap(),
                    root,
                    (NODES - depth) as nat,
                ),
            decreases NODES - depth,
        {
            let cap = match current {
                Some(c) => c,
                None => return false,
            };
            if cap == root {
                return true;
            }
            if cap.node as usize >= NODES {
                return false;
            }
            let node = self.nodes[cap.node as usize];
            current = node.parent;
            depth += 1;
            if depth > NODES {
                return false;
            }
            if current.is_none() {
                return false;
            }
        }
    }
}

/// Revoking a capability invalidates its whole derivation subtree: a slot whose capability
/// lay in the subtree is emptied, so resolving it fails with `EmptySlot`.
pub proof fn lemma_revoke_empties_subtree(s: CapState, task: int, slot: int, t: int, j: int)
    requires
        s.revoke(task, slot).1 is Ok,
        0 <= t < s.spaces.len(),
        0 <= j < s.spaces[t].len(),
        s.spaces[t][j] is Some,
        s.in_subtree(s.slot_entry(task, slot).unwrap(), s.spaces[t][j].unwrap().index()),
    ensures
        s.revoke(task, slot).0.spaces[t][j] is None,
        forall|r: Rights|
            s.revoke(task, slot).0.resolve(t, j, r) == Err::<ResolvedCapability, CapError>(
                CapError::EmptySlot,
            ),
{
    let root = s.slot_entry(task, slot).unwrap();
    let n = s.spaces[t][j].unwrap().node as int;
    assert(s.revoked_nodes(root)[n].live == false);
}

/// Revocation leaves every capability outside the revoked subtree in place: such a slot
/// keeps its reference and resolves exactly as before.
pub proof fn lemma_revoke_keeps_other_capabilities(s: CapState, task: int, slot: int, t: int, j: int)
    requires
        s.well_formed(),
        s.revoke(task, slot).1 is Ok,
        0 <= t < s.spaces.len(),
        0 <= j < s.spaces[t].len(),
        s.spaces[t][j] is Some,
        !s.in_subtree(s.slot_entry(task, slot).unwrap(), s.spaces[t][j].unwrap().index()),
    ensures
        s.revoke(task, slot).0.spaces[t][j] == s.spaces[t][j],
        forall|r: Rights| s.revoke(task, slot).0.resolve(t, j, r) == s.resolve(t, j, r),
{
    let root = s.slot_entry(task, slot).unwrap();
    let c = s.spaces[t][j].unwrap();
    assert(valid_ref(s.nodes, c));
    assert(s.revoked_nodes(root)[c.node as int] == s.nodes[c.node as int]);
}

/// A revoked capability's own reference is stale afterwards.
pub proof fn lemma_revoked_reference_is_stale(s: CapState, task: int, slot: int)
    requires
        s.revoke(task, slot).1 is Ok,
    ensures
        s.revoke(task, slot).0.resolve_ref(s.slot_entry(task, slot).unwrap())
            == Err::<ResolvedCapability, CapError>(CapError::Stale),
{
    let root = s.slot_entry(task, slot).unwrap();
    let i = root.node as int;
    assert(valid_ref(s.nodes, root));
    assert((CapRef { node: i as u16, generation: s.nodes[i].generation }) == root);
    assert(s.in_subtree(root, i));
    assert(!s.revoked_nodes(root)[i].live);
}

/// Allocating a node leaves every CSpace as it was.
pub proof fn lemma_allocate_keeps_slots(s: CapState, object: Object, rights: Rights, parent: Option<CapRef>)
    ensures
        s.allocate(object, rights, parent).0.spaces == s.spaces,
{
}

/// On a well-formed system no slot holds a stale reference, so resolving, minting and
/// revoking never fail with `Stale`.
pub proof fn lemma_never_stale(
    s: CapState,
    task: int,
    slot: int,
    required: Rights,
    destination_task: int,
    destination_slot: int,
    rights: Rights,
)
    requires
        s.well_formed(),
    ensures
        s.resolve(task, slot, required) != Err::<ResolvedCapability, CapError>(CapError::Stale),
        s.mint(task, slot, destination_task, destination_slot, rights).1 != Err::<(), CapError>(
            CapError::Stale,
        ),
        s.revoke(task, slot).1 != Err::<usize, CapError>(CapError::Stale),
{
    if let Ok(c) = s.slot_entry(task, slot) {
        assert(s.spaces[task][slot] == Some(c));
        assert(valid_ref(s.nodes, c));
    }
}

/// Granting never changes a node's generation.
proof fn lemma_grants_keep_generations(
    s: CapState,
    source_task: int,
    source_slot: int,
    task: int,
    slot: int,
    object: Object,
    rights: Rights,
)
    ensures
        s.create_root(task, slot, object, rights).0.nodes.len() == s.nodes.len(),
        s.mint(source_task, source_slot, task, slot, rights).0.nodes.len() == s.nodes.len(),
        forall|i: int|
            0 <= i < s.nodes.len() ==> (#[trigger] s.create_root(task, slot, object, rights).0.nodes[i]).generation
                == s.nodes[i].generation,
        forall|i: int|
            0 <= i < s.nodes.len() ==> (#[trigger] s.mint(
                source_task,
                source_slot,
                task,
                slot,
                rights,
            ).0.nodes[i]).generation == s.nodes[i].generation,
{
    if s.has_free() {
        let i = choose|i: int| 0 <= i < s.nodes.len() && !s.nodes[i].live;
        lemma_first_free_exists(s, i);
    }
}

/// Generations keep revoked references dead when their storage is reused: after a
/// revocation, granting a new root or minting a new child, though it may take over the
/// revoked node, never makes the revoked reference resolve again.
pub proof fn lemma_revoked_reference_stays_stale(
    s: CapState,
    task: int,
    slot: int,
    source_task: int,
    source_slot: int,
    new_task: int,
    new_slot: int,
    object: Object,
    rights: Rights,
)
    requires
        s.revoke(task, slot).1 is Ok,
    ensures
        ({
            let root = s.slot_entry(task, slot).unwrap();
            let s1 = s.revoke(task, slot).0;
            &&& s1.create_root(new_task, new_slot, object, rights).0.resolve_ref(root)
                == Err::<ResolvedCapability, CapError>(CapError::Stale)
            &&& s1.mint(source_task, source_slot, new_task, new_slot, rights).0.resolve_ref(root)
                == Err::<ResolvedCapability, CapError>(CapError::Stale)
        }),
{
    let root = s.slot_entry(task, slot).unwrap();
    let i = root.node as int;
    let s1 = s.revoke(task, slot).0;
    assert(valid_ref(s.nodes, root));
    assert((CapRef { node: i as u16, generation: s.nodes[i].generation }) == root);
    assert(s.in_subtree(root, i));
    assert(s1.nodes[i].generation == next_generation(root.generation));
    assert(s1.nodes[i].generation != root.generation);
    lemma_grants_keep_generations(s1, source_task, source_slot, new_task, new_slot, object, rights);
    assert(s1.create_root(new_task, new_slot, object, rights).0.nodes[i].generation
        != root.generation);
    assert(s1.mint(source_task, source_slot, new_task, new_slot, rights).0.nodes[i].generation
        != root.generation);
}

proof fn lemma_operations_keep_references_valid(
    s: CapState,
    task: int,
    slot: int,
    other_task: int,
    other_slot: int,
    object: Object,
    rights: Rights,
)
    requires
        s.references_valid(),
    ensures
        s.create_root(task, slot, object, rights).0.references_valid(),
        s.mint(task, slot, other_task, other_slot, rights).0.references_valid(),
        s.revoke(task, slot).0.references_valid(),
{
    lemma_allocate_keeps_well_formed(s, object, rights, None);
    let c = s.create_root(task, slot, object, rights);
    if c.1 is Ok {
        let (s1, r) = s.allocate(object, rights, None);
        lemma_with_valid_slot(s1, task, slot, Some(r.unwrap()));
    }
    match s.slot_entry(task, slot) {
        Ok(parent) => {
            match s.resolve_ref(parent) {
                Ok(resolved) => {
                    lemma_allocate_keeps_well_formed(s, resolved.object, rights, Some(parent));
                    if s.mint(task, slot, other_task, other_slot, rights).1 is Ok {
                        let (s1, r) = s.allocate(resolved.object, rights, Some(parent));
                        lemma_with_valid_slot(s1, other_task, other_slot, Some(r.unwrap()));
                    }
                    let after = s.revoked(parent);
                    assert forall|k: int, j: int|
                        #![trigger after.spaces[k][j]]
                        0 <= k < after.spaces.len() && 0 <= j < after.spaces[k].len()
                            && after.spaces[k][j] is Some implies valid_ref(
                        after.nodes,
                        after.spaces[k][j].unwrap(),
                    ) by {
                        assert(after.spaces[k][j] == cleared(after.nodes, s.spaces[k][j]));
                    }
                },
                Err(_) => {},
            }
        },
        Err(_) => {},
    }
}

proof fn lemma_allocate_keeps_well_formed(s: CapState, object: Object, rights: Rights, parent: Option<CapRef>)
    requires
        s.references_valid(),
    ensures
        s.allocate(object, rights, parent).0.references_valid(),
        s.allocate(object, rights, parent).1 is Ok ==> valid_ref(
            s.allocate(object, rights, parent).0.nodes,
            s.allocate(object, rights, parent).1.unwrap(),
        ),
        s.allocate(object, rights, parent).1 is Ok ==> s.is_first_free(s.first_free()),
        s.allocate(object, rights, parent).1 is Ok ==> s.has_free() && s.allocate(
            object,
            rights,
            parent,
        ).1.unwrap().index() == s.first_free(),
{
    if s.has_free() {
        let i = choose|i: int| 0 <= i < s.nodes.len() && !s.nodes[i].live;
        lemma_first_free_exists(s, i);
        let k = s.first_free();
        let s1 = s.allocate(object, rights, parent).0;
        assert forall|t: int, j: int|
            #![trigger s1.spaces[t][j]]
            0 <= t < s1.spaces.len() && 0 <= j < s1.spaces[t].len() && s1.spaces[t][j] is Some implies valid_ref(
            s1.nodes,
            s1.spaces[t][j].unwrap(),
        ) by {
            assert(valid_ref(s.nodes, s.spaces[t][j].unwrap()));
        }
    }
}

/// When some node is free, a least free node exists.
proof fn lemma_first_free_exists(s: CapState, i: int)
    requires
        0 <= i < s.nodes.len(),
        !s.nodes[i].live,
    ensures
        s.is_first_free(s.first_free()),
    decreases i,
{
    if forall|j: int| 0 <= j < i ==> #[trigger] s.nodes[j].live {
        assert(s.is_first_free(i));
    } else {
        let j = choose|j: int| 0 <= j < i && !#[trigger] s.nodes[j].live;
        lemma_first_free_exists(s, j);
    }
}

/// A new root capability is what its slot resolves to afterwards.
pub proof fn lemma_create_root_then_resolve(
    s: CapState,
    owner: int,
    slot: int,
    object: Object,
    rights: Rights,
    required: Rights,
)
    requires
        s.well_formed(),
        s.create_root(owner, slot, object, rights).1 is Ok,
    ensures
        s.create_root(owner, slot, object, rights).0.resolve(owner, slot, required) == if rights.includes(
            required,
        ) {
            Ok::<ResolvedCapability, CapError>(ResolvedCapability { object, rights })
        } else {
            Err(CapError::PermissionDenied)
        },
{
    lemma_allocate_keeps_well_formed(s, object, rights, None);
    let (s1, r) = s.allocate(object, rights, None);
    let cap = r.unwrap();
    let i = s.first_free();
    assert(cap.node as int == i);
    let s2 = s1.with_slot(owner, slot, Some(cap));
    assert(s2.spaces[owner][slot] == Some(cap));
    assert(s2.slot_entry(owner, slot) == Ok::<CapRef, CapError>(cap));
    assert(s2.nodes[i].object == object && s2.nodes[i].rights == rights);
}

/// Minting needs GRANT and can only attenuate: the source carries GRANT and every
/// requested right, and the destination then names the same object with exactly the
/// requested rights.
pub proof fn lemma_mint_attenuates(
    s: CapState,
    source_task: int,
    source_slot: int,
    destination_task: int,
    destination_slot: int,
    rights: Rights,
    required: Rights,
)
    requires
        s.well_formed(),
        s.mint(source_task, source_slot, destination_task, destination_slot, rights).1 is Ok,
    ensures
        s.resolve_ref(s.slot_entry(source_task, source_slot).unwrap()) is Ok,
        s.resolve_ref(s.slot_entry(source_task, source_slot).unwrap()).unwrap().rights.has_grant(),
        s.resolve_ref(s.slot_entry(source_task, source_slot).unwrap()).unwrap().rights.includes(
            rights,
        ),
        s.mint(source_task, source_slot, destination_task, destination_slot, rights).0.resolve(
            destination_task,
            destination_slot,
            required,
        ) == if rights.includes(required) {
            Ok::<ResolvedCapability, CapError>(
                ResolvedCapability {
                    object: s.resolve_ref(
                        s.slot_entry(source_task, source_slot).unwrap(),
                    ).unwrap().object,
                    rights,
                },
            )
        } else {
            Err(CapError::PermissionDenied)
        },
{
    let parent = s.slot_entry(source_task, source_slot).unwrap();
    let resolved = s.resolve_ref(parent).unwrap();
    lemma_allocate_keeps_well_formed(s, resolved.object, rights, Some(parent));
    let (s1, r) = s.allocate(resolved.object, rights, Some(parent));
    let cap = r.unwrap();
    let i = s.first_free();
    assert(cap.node as int == i);
    let s2 = s1.with_slot(destination_task, destination_slot, Some(cap));
    assert(s2.spaces[destination_task][destination_slot] == Some(cap));
    assert(s2.slot_entry(destination_task, destination_slot) == Ok::<CapRef, CapError>(cap));
    assert(s2.nodes[i].object == resolved.object && s2.nodes[i].rights == rights);
}

/// Creating or minting a capability changes what no other slot resolves to.
pub proof fn lemma_grants_leave_other_slots(
    s: CapState,
    task: int,
    slot: int,
    other_task: int,
    other_slot: int,
    object: Object,
    rights: Rights,
    t: int,
    j: int,
    required: Rights,
)
    requires
        s.well_formed(),
        !(t == other_task && j == other_slot),
    ensures
        !(t == task && j == slot) ==> s.create_root(task, slot, object, rights).0.resolve(
            t,
            j,
            required,
        ) == s.resolve(t, j, required),
        s.mint(task, slot, other_task, other_slot, rights).0.resolve(t, j, required) == s.resolve(
            t,
            j,
            required,
        ),
{
    lemma_allocate_keeps_well_formed(s, object, rights, None);
    if 0 <= t < s.spaces.len() && 0 <= j < s.spaces[t].len() && s.spaces[t][j] is Some {
        assert(valid_ref(s.nodes, s.spaces[t][j].unwrap()));
    }
    if s.create_root(task, slot, object, rights).1 is Ok && !(t == task && j == slot) {
        let (s1, r) = s.allocate(object, rights, None);
        lemma_allocate_frames_valid_refs(s, object, rights, None, t, j);
        let s2 = s1.with_slot(task, slot, Some(r.unwrap()));
        assert(s2.slot_entry(t, j) == s.slot_entry(t, j));
    }
    match s.slot_entry(task, slot) {
        Ok(parent) => match s.resolve_ref(parent) {
            Ok(resolved) => {
                lemma_allocate_keeps_well_formed(s, resolved.object, rights, Some(parent));
                if s.mint(task, slot, other_task, other_slot, rights).1 is Ok {
                    let (s1, r) = s.allocate(resolved.object, rights, Some(parent));
                    lemma_allocate_frames_valid_refs(s, resolved.object, rights, Some(parent), t, j);
                    let s2 = s1.with_slot(other_task, other_slot, Some(r.unwrap()));
                    assert(s2.slot_entry(t, j) == s.slot_entry(t, j));
                }
            },
            Err(_) => {},
        },
        Err(_) => {},
    }
}

/// Allocation changes only a free node, so a slot that resolved keeps resolving the same.
proof fn lemma_allocate_frames_valid_refs(
    s: CapState,
    object: Object,
    rights: Rights,
    parent: Option<CapRef>,
    t: int,
    j: int,
)
    requires
        s.well_formed(),
    ensures
        forall|r: Rights|
            s.allocate(object, rights, parent).0.resolve(t, j, r) == s.resolve(t, j, r),
        s.allocate(object, rights, parent).0.spaces == s.spaces,
{
    let s1 = s.allocate(object, rights, parent).0;
    if s.has_free() {
        let i = choose|i: int| 0 <= i < s.nodes.len() && !s.nodes[i].live;
        lemma_first_free_exists(s, i);
        if 0 <= t < s.spaces.len() && 0 <= j < s.spaces[t].len() && s.spaces[t][j] is Some {
            let c = s.spaces[t][j].unwrap();
            assert(valid_ref(s.nodes, c));
            assert(c.node as int != s.first_free());
            assert(s1.nodes[c.node as int] == s.nodes[c.node as int]);
            assert(s1.resolve_ref(c) == s.resolve_ref(c));
        }
    }
}

/// A capability resolves only with every required right: a successful resolution names
/// the slot's capability, whose rights include the required ones.
pub proof fn lemma_resolve_carries_required_rights(s: CapState, task: int, slot: int, required: Rights)
    requires
        s.resolve(task, slot, required) is Ok,
    ensures
        s.slot_entry(task, slot) is Ok,
        s.resolve_ref(s.slot_entry(task, slot).unwrap()) == s.resolve(task, slot, required),
        s.resolve(task, slot, required).unwrap().rights.includes(required),
{
}

/// The reference that names node `i` under its current generation.
pub closed spec fn node_ref(nodes: Seq<Node>, i: int) -> CapRef {
    CapRef { node: i as u16, generation: nodes[i].generation }
}

/// The node `k` parent links above node `i`.
closed spec fn ancestor(nodes: Seq<Node>, i: int, k: nat) -> int
    decreases k,
{
    if k == 0 {
        i
    } else {
        let j = ancestor(nodes, i, (k - 1) as nat);
        match nodes[j].parent {
            Some(p) => p.node as int,
            None => j,
        }
    }
}

proof fn lemma_reaches_monotone(nodes: Seq<Node>, cap: CapRef, root: CapRef, f: nat, g: nat)
    requires
        f <= g,
        reaches(nodes, cap, root, f),
    ensures
        reaches(nodes, cap, root, g),
    decreases f,
{
    if cap != root && cap.node < nodes.len() {
        match nodes[cap.node as int].parent {
            Some(p) => {
                if f > 0 {
                    lemma_reaches_monotone(nodes, p, root, (f - 1) as nat, (g - 1) as nat);
                }
            },
            None => {},
        }
    }
}

/// In a ranked forest, walking up from a live node never needs more parent links than its
/// depth.
proof fn lemma_reaches_within_depth(s: CapState, depth: Seq<nat>, i: int, root: CapRef, f: nat)
    requires
        s.ranked(depth),
        s.nodes.len() <= 0x10000,
        0 <= i < s.nodes.len(),
        s.nodes[i].live,
        f >= depth[i],
    ensures
        reaches(s.nodes, node_ref(s.nodes, i), root, f) == reaches(
            s.nodes,
            node_ref(s.nodes, i),
            root,
            depth[i],
        ),
    decreases depth[i],
{
    let c = node_ref(s.nodes, i);
    assert(c.node as int == i);
    if c != root {
        match s.nodes[i].parent {
            None => {},
            Some(p) => {
                let j = p.node as int;
                assert(valid_ref(s.nodes, p));
                assert(p == node_ref(s.nodes, j));
                lemma_reaches_within_depth(s, depth, j, root, (f - 1) as nat);
            },
        }
    }
}

proof fn lemma_ancestor(s: CapState, depth: Seq<nat>, i: int, k: nat)
    requires
        s.ranked(depth),
        0 <= i < s.nodes.len(),
        s.nodes[i].live,
        k <= depth[i],
    ensures
        0 <= ancestor(s.nodes, i, k) < s.nodes.len(),
        s.nodes[ancestor(s.nodes, i, k)].live,
        depth[ancestor(s.nodes, i, k)] == depth[i] - k,
    decreases k,
{
    if k > 0 {
        lemma_ancestor(s, depth, i, (k - 1) as nat);
        let j = ancestor(s.nodes, i, (k - 1) as nat);
        assert(depth[j] > 0);
        assert(s.nodes[j].parent is Some);
    }
}

/// A sequence of distinct indices below `n` has at most `n` entries.
proof fn lemma_distinct_in_range(q: Seq<int>, n: int)
    requires
        q.no_duplicates(),
        0 <= n,
        forall|k: int| 0 <= k < q.len() ==> 0 <= #[trigger] q[k] < n,
    ensures
        q.len() <= n,
{
    q.unique_seq_to_set();
    vstd::set_lib::lemma_int_range(0, n);
    assert(q.to_set().subset_of(vstd::set_lib::set_int_range(0, n))) by {
        assert forall|x: int| q.to_set().contains(x) implies vstd::set_lib::set_int_range(
            0,
            n,
        ).contains(x) by {
            let k = choose|k: int| 0 <= k < q.len() && q[k] == x;
            assert(0 <= q[k] < n);
        }
    }
    vstd::set_lib::lemma_len_subset(q.to_set(), vstd::set_lib::set_int_range(0, n));
}

/// A live node's ancestors together with a free node are distinct nodes, so a node's depth
/// plus one stays below the number of nodes while some node is free.
proof fn lemma_depth_leaves_room(s: CapState, depth: Seq<nat>, p: int, f: int)
    requires
        s.ranked(depth),
        0 <= p < s.nodes.len(),
        s.nodes[p].live,
        0 <= f < s.nodes.len(),
        !s.nodes[f].live,
    ensures
        depth[p] + 1 < s.nodes.len(),
{
    let d = depth[p];
    let chain = Seq::new((d + 1) as nat, |k: int| ancestor(s.nodes, p, k as nat));
    let q = chain.push(f);
    assert forall|k: int| 0 <= k < chain.len() implies 0 <= #[trigger] chain[k] < s.nodes.len()
        && s.nodes[chain[k]].live && depth[chain[k]] == d - k by {
        lemma_ancestor(s, depth, p, k as nat);
    }
    assert(q.no_duplicates()) by {
        assert forall|a: int, b: int| 0 <= a < q.len() && 0 <= b < q.len() && a != b implies q[a]
            != q[b] by {
            if a < chain.len() && b < chain.len() {
                assert(depth[chain[a]] != depth[chain[b]]);
            } else if a < chain.len() {
                assert(s.nodes[chain[a]].live);
            } else {
                assert(s.nodes[chain[b]].live);
            }
        }
    }
    assert forall|k: int| 0 <= k < q.len() implies 0 <= #[trigger] q[k] < s.nodes.len() by {
        if k < chain.len() {
            assert(q[k] == chain[k]);
        }
    }
    lemma_distinct_in_range(q, s.nodes.len() as int);
}

/// Allocating a root node, or a child of a live node, keeps the forest ranked.
proof fn lemma_allocate_keeps_tree(s: CapState, object: Object, rights: Rights, parent: Option<CapRef>)
    requires
        s.references_valid(),
        s.is_tree(),
        parent is Some ==> valid_ref(s.nodes, parent.unwrap()),
    ensures
        s.allocate(object, rights, parent).0.is_tree(),
{
    let depth = choose|depth: Seq<nat>| s.ranked(depth);
    lemma_allocate_keeps_well_formed(s, object, rights, parent);
    if s.allocate(object, rights, parent).1 is Ok {
        let f = s.first_free();
        let n = s.allocate(object, rights, parent).0;
        let df: nat = match parent {
            None => 0,
            Some(p) => depth[p.node as int] + 1,
        };
        if let Some(p) = parent {
            lemma_depth_leaves_room(s, depth, p.node as int, f);
        }
        let depth2 = depth.update(f, df);
        assert forall|i: int| 0 <= i < n.nodes.len() && (#[trigger] n.nodes[i]).live implies {
            &&& depth2[i] < n.nodes.len()
            &&& match n.nodes[i].parent {
                None => depth2[i] == 0,
                Some(p) => valid_ref(n.nodes, p) && depth2[i] == depth2[p.node as int] + 1,
            }
        } by {
            if i != f {
                assert(s.nodes[i].live);
                if let Some(p) = s.nodes[i].parent {
                    assert(valid_ref(s.nodes, p));
                    assert(p.node as int != f);
                }
            } else if let Some(p) = parent {
                assert(p.node as int != f);
            }
        }
        assert(n.ranked(depth2));
    }
}

/// Revocation keeps the forest ranked: a surviving live node's parent survives.
proof fn lemma_revoked_keeps_tree(s: CapState, root: CapRef)
    requires
        s.references_valid(),
        s.is_tree(),
    ensures
        s.revoked(root).is_tree(),
{
    let depth = choose|depth: Seq<nat>| s.ranked(depth);
    let n = s.revoked(root);
    let len = s.nodes.len();
    assert forall|i: int| 0 <= i < n.nodes.len() && (#[trigger] n.nodes[i]).live implies {
        &&& depth[i] < n.nodes.len()
        &&& match n.nodes[i].parent {
            None => depth[i] == 0,
            Some(p) => valid_ref(n.nodes, p) && depth[i] == depth[p.node as int] + 1,
        }
    } by {
        assert(!s.in_subtree(root, i));
        assert(s.nodes[i].live);
        if let Some(p) = s.nodes[i].parent {
            let j = p.node as int;
            assert(valid_ref(s.nodes, p));
            assert(p == node_ref(s.nodes, j));
            if s.in_subtree(root, j) {
                lemma_reaches_within_depth(s, depth, j, root, len);
                lemma_reaches_monotone(s.nodes, p, root, depth[j], (len - 1) as nat);
                assert(node_ref(s.nodes, i).node as int == i);
                assert(reaches(s.nodes, node_ref(s.nodes, i), root, len));
                assert(s.in_subtree(root, i));
            }
            assert(n.nodes[j] == s.nodes[j]);
        }
    }
    assert(n.ranked(depth));
}

/// Creating, minting and revoking keep the system well formed: no CSpace slot ever holds
/// a stale reference, and the live nodes always form a derivation forest.
pub proof fn lemma_operations_keep_well_formed(
    s: CapState,
    task: int,
    slot: int,
    other_task: int,
    other_slot: int,
    object: Object,
    rights: Rights,
)
    requires
        s.well_formed(),
    ensures
        s.create_root(task, slot, object, rights).0.well_formed(),
        s.mint(task, slot, other_task, other_slot, rights).0.well_formed(),
        s.revoke(task, slot).0.well_formed(),
{
    lemma_operations_keep_references_valid(s, task, slot, other_task, other_slot, object, rights);
    lemma_allocate_keeps_tree(s, object, rights, None);
    if s.create_root(task, slot, object, rights).1 is Ok {
        let s1 = s.allocate(object, rights, None).0;
        assert(s.create_root(task, slot, object, rights).0.nodes == s1.nodes);
        let depth = choose|depth: Seq<nat>| s1.ranked(depth);
        assert(s.create_root(task, slot, object, rights).0.ranked(depth));
    }
    match s.slot_entry(task, slot) {
        Ok(parent) => match s.resolve_ref(parent) {
            Ok(resolved) => {
                lemma_allocate_keeps_tree(s, resolved.object, rights, Some(parent));
                if s.mint(task, slot, other_task, other_slot, rights).1 is Ok {
                    let s1 = s.allocate(resolved.object, rights, Some(parent)).0;
                    let depth = choose|depth: Seq<nat>| s1.ranked(depth);
                    assert(s.mint(task, slot, other_task, other_slot, rights).0.ranked(depth));
                }
                lemma_revoked_keeps_tree(s, parent);
            },
            Err(_) => {},
        },
        Err(_) => {},
    }
}

/// Revocation invalidates the complete derivation subtree: every live node reached from
/// the revoked capability by any number of parent links is freed, and every slot that
/// named it is emptied.
pub proof fn lemma_revoke_kills_every_descendant(
    s: CapState,
    task: int,
    slot: int,
    i: int,
    links: nat,
)
    requires
        s.well_formed(),
        s.revoke(task, slot).1 is Ok,
        0 <= i < s.nodes.len(),
        s.nodes[i].live,
        reaches(s.nodes, node_ref(s.nodes, i), s.slot_entry(task, slot).unwrap(), links),
    ensures
        s.in_subtree(s.slot_entry(task, slot).unwrap(), i),
        !s.revoke(task, slot).0.nodes[i].live,
        forall|t: int, j: int|
            0 <= t < s.spaces.len() && 0 <= j < s.spaces[t].len() && s.spaces[t][j] is Some
                && (#[trigger] s.spaces[t][j]).unwrap().index() == i ==> s.revoke(
                task,
                slot,
            ).0.spaces[t][j] is None,
{
    let root = s.slot_entry(task, slot).unwrap();
    let depth = choose|depth: Seq<nat>| s.ranked(depth);
    let len = s.nodes.len();
    if links <= len {
        lemma_reaches_monotone(s.nodes, node_ref(s.nodes, i), root, links, len);
    } else {
        lemma_reaches_within_depth(s, depth, i, root, links);
        lemma_reaches_monotone(s.nodes, node_ref(s.nodes, i), root, depth[i], len);
    }
    assert(s.in_subtree(root, i));
    let after = s.revoke(task, slot).0;
    assert(!after.nodes[i].live);
    assert forall|t: int, j: int|
        0 <= t < s.spaces.len() && 0 <= j < s.spaces[t].len() && s.spaces[t][j] is Some && (#[trigger] s.spaces[t][j]).unwrap().index()
            == i implies after.spaces[t][j] is None by {
        assert(after.spaces[t][j] == cleared(after.nodes, s.spaces[t][j]));
    }
}

proof fn lemma_subtree_count_tail(s: CapState, root: CapRef, lo: nat, k: nat)
    requires
        lo <= k <= s.nodes.len(),
        forall|i: int| lo <= i < k ==> !(#[trigger] s.nodes[i]).live,
    ensures
        s.subtree_count(root, k) == s.subtree_count(root, lo),
    decreases k,
{
    if k > lo {
        lemma_subtree_count_tail(s, root, lo, (k - 1) as nat);
        assert(!s.in_subtree(root, k - 1));
    }
}

/// Granting a root capability on a well-formed system succeeds exactly when the slot is
/// an empty slot of an existing task and some node is free; on success the slot holds the
/// new capability and every other slot is unchanged.
pub proof fn lemma_create_root_outcome(s: CapState, owner: int, slot: int, object: Object, rights: Rights)
    requires
        s.well_formed(),
    ensures
        s.create_root(owner, slot, object, rights).1 == match s.destination(owner, slot) {
            Err(e) => Err(e),
            Ok(_) => if s.has_free() {
                Ok::<(), CapError>(())
            } else {
                Err(CapError::OutOfNodes)
            },
        },
        s.create_root(owner, slot, object, rights).0.spaces.len() == s.spaces.len(),
        s.create_root(owner, slot, object, rights).1 is Ok ==> ({
            let n = s.create_root(owner, slot, object, rights).0;
            &&& n.spaces[owner][slot] is Some
            &&& forall|t: int, j: int|
                0 <= t < s.spaces.len() && 0 <= j < s.spaces[t].len() && !(t == owner && j == slot)
                    ==> (#[trigger] n.spaces[t][j])
                    == s.spaces[t][j]
            &&& forall|t: int| 0 <= t < s.spaces.len() ==> (#[trigger] n.spaces[t]).len() == s.spaces[t].len()
        }),
{
    lemma_allocate_keeps_slots(s, object, rights, None);
}

/// Minting on a well-formed system succeeds exactly when the destination is an empty slot
/// of an existing task, the source slot holds a capability carrying GRANT and every
/// requested right, and some node is free; on success the destination holds the child and
/// every other slot is unchanged.
pub proof fn lemma_mint_outcome(
    s: CapState,
    source_task: int,
    source_slot: int,
    destination_task: int,
    destination_slot: int,
    rights: Rights,
)
    requires
        s.well_formed(),
    ensures
        s.mint(source_task, source_slot, destination_task, destination_slot, rights).1 == match s.destination(
            destination_task,
            destination_slot,
        ) {
            Err(e) => Err(e),
            Ok(_) => match s.resolve(source_task, source_slot, Rights::from_bits(0)) {
                Err(e) => Err(e),
                Ok(r) => if !r.rights.has_grant() || !r.rights.includes(rights) {
                    Err(CapError::PermissionDenied)
                } else if s.has_free() {
                    Ok::<(), CapError>(())
                } else {
                    Err(CapError::OutOfNodes)
                },
            },
        },
        s.mint(source_task, source_slot, destination_task, destination_slot, rights).0.spaces.len()
            == s.spaces.len(),
        s.mint(source_task, source_slot, destination_task, destination_slot, rights).1 is Ok ==> ({
            let n = s.mint(source_task, source_slot, destination_task, destination_slot, rights).0;
            &&& n.spaces[destination_task][destination_slot] is Some
            &&& forall|t: int, j: int|
                0 <= t < s.spaces.len() && 0 <= j < s.spaces[t].len() && !(t == destination_task
                    && j == destination_slot) ==> (
                #[trigger] n.spaces[t][j]) == s.spaces[t][j]
            &&& forall|t: int| 0 <= t < s.spaces.len() ==> (#[trigger] n.spaces[t]).len() == s.spaces[t].len()
        }),
{
    Rights::lemma_from_bits(0);
    if let Ok(c) = s.slot_entry(source_task, source_slot) {
        assert(s.spaces[source_task][source_slot] == Some(c));
        assert(valid_ref(s.nodes, c));
        let r = s.resolve_ref(c).unwrap();
        Rights::lemma_includes_none(r.rights, Rights::from_bits(0));
        lemma_allocate_keeps_slots(s, r.object, rights, Some(c));
    }
}

/// How many of the first `k` nodes lie in a subtree is at least one for each subtree node
/// among them.
proof fn lemma_subtree_count_at_least(s: CapState, root: CapRef, k: nat, a: int, b: int)
    requires
        0 <= a < k,
        0 <= b < k,
        s.in_subtree(root, a),
        s.in_subtree(root, b),
    ensures
        s.subtree_count(root, k) >= 1,
        a != b ==> s.subtree_count(root, k) >= 2,
    decreases k,
{
    if k - 1 == a && k - 1 == b {
    } else if k - 1 == a {
        lemma_subtree_count_at_least(s, root, (k - 1) as nat, b, b);
    } else if k - 1 == b {
        lemma_subtree_count_at_least(s, root, (k - 1) as nat, a, a);
    } else {
        lemma_subtree_count_at_least(s, root, (k - 1) as nat, a, b);
    }
}

/// Revoking on a well-formed system succeeds exactly when the slot holds a capability; it
/// then empties that slot and counts at least the capability's own node.
pub proof fn lemma_revoke_outcome(s: CapState, task: int, slot: int)
    requires
        s.well_formed(),
    ensures
        s.revoke(task, slot).1 is Ok <==> s.slot_entry(task, slot) is Ok,
        s.revoke(task, slot).1 is Err ==> s.revoke(task, slot).1 == Err::<usize, CapError>(
            s.slot_entry(task, slot)->Err_0,
        ),
        s.revoke(task, slot).0.spaces.len() == s.spaces.len(),
        s.revoke(task, slot).1 is Ok ==> s.revoke(task, slot).0.spaces[task][slot] is None
            && s.revoke(task, slot).1->Ok_0 >= 1,
{
    if let Ok(root) = s.slot_entry(task, slot) {
        assert(s.spaces[task][slot] == Some(root));
        assert(valid_ref(s.nodes, root));
        let i = root.node as int;
        assert((CapRef { node: i as u16, generation: s.nodes[i].generation }) == root);
        assert(s.in_subtree(root, i));
        lemma_revoke_empties_subtree(s, task, slot, task, slot);
        lemma_subtree_count_at_least(s, root, s.nodes.len(), i, i);
        lemma_subtree_count_bound(s, root, s.nodes.len());
    }
}

/// Revoking a capability revokes the children minted from it: after a successful mint,
/// revoking the source empties both the source slot and the child's slot, and counts at
/// least both nodes.
pub proof fn lemma_revoke_takes_minted_child(
    s: CapState,
    task: int,
    slot: int,
    destination_task: int,
    destination_slot: int,
    rights: Rights,
)
    requires
        s.well_formed(),
        s.mint(task, slot, destination_task, destination_slot, rights).1 is Ok,
    ensures
        ({
            let m = s.mint(task, slot, destination_task, destination_slot, rights).0;
            let (n, r) = m.revoke(task, slot);
            &&& r is Ok
            &&& r->Ok_0 >= 2
            &&& n.spaces[task][slot] is None
            &&& n.spaces[destination_task][destination_slot] is None
        }),
{
    let m = s.mint(task, slot, destination_task, destination_slot, rights).0;
    lemma_operations_keep_well_formed(s, task, slot, destination_task, destination_slot, Object::Endpoint(0), rights);
    let root = s.slot_entry(task, slot).unwrap();
    assert(s.spaces[task][slot] == Some(root));
    assert(valid_ref(s.nodes, root));
    let resolved = s.resolve_ref(root).unwrap();
    lemma_allocate_keeps_well_formed(s, resolved.object, rights, Some(root));
    let child = s.allocate(resolved.object, rights, Some(root)).1.unwrap();
    let ci = child.node as int;
    assert(m.spaces[destination_task][destination_slot] == Some(child));
    assert(m.spaces[task][slot] == Some(root));
    assert(m.nodes[ci].parent == Some(root));
    assert(m.nodes[ci].live);
    let ri = root.node as int;
    assert(!s.nodes[ci].live);
    assert(ci != ri);
    assert(m.nodes[ri] == s.nodes[ri]);
    assert((CapRef { node: ri as u16, generation: m.nodes[ri].generation }) == root);
    assert(m.in_subtree(root, ri));
    assert((CapRef { node: ci as u16, generation: m.nodes[ci].generation }) == child);
    assert(child != root);
    assert(reaches(m.nodes, root, root, (m.nodes.len() - 1) as nat));
    assert(m.in_subtree(root, ci));
    assert(m.revoke(task, slot).1 is Ok);
    lemma_revoke_empties_subtree(m, task, slot, task, slot);
    lemma_revoke_empties_subtree(m, task, slot, destination_task, destination_slot);
    lemma_subtree_count_at_least(m, root, m.nodes.len(), ri, ci);
    lemma_subtree_count_bound(m, root, m.nodes.len());
}

proof fn lemma_subtree_count_bound(s: CapState, root: CapRef, k: nat)
    ensures
        s.subtree_count(root, k) <= k,
    decreases k,
{
    if k > 0 {
        lemma_subtree_count_bound(s, root, (k - 1) as nat);
    }
}

/// The parent-chain walk, one step at a time: a reference reaches `root` within `fuel`
/// parent links when it is `root`, or when it names an existing node whose parent
/// reaches `root` within one link less; a missing parent or node ends the walk.
pub proof fn lemma_reaches_step(nodes: Seq<Node>, cap: CapRef, root: CapRef, fuel: nat)
    ensures
        reaches(nodes, cap, root, fuel) == (cap == root || (0 <= cap.index() < nodes.len()
            && match nodes[cap.index()].parent {
            None => false,
            Some(p) => fuel > 0 && reaches(nodes, p, root, (fuel - 1) as nat),
        })),
{
}

/// A node lies in the subtree of `root` exactly when it is live and the reference naming
/// it under its current generation reaches `root` within as many parent links as there
/// are nodes; that reference names the node itself.
pub proof fn lemma_in_subtree_is_a_walk(s: CapState, root: CapRef, i: int)
    requires
        0 <= i < s.nodes.len() <= 0x10000,
    ensures
        s.in_subtree(root, i) == (s.nodes[i].live && reaches(
            s.nodes,
            node_ref(s.nodes, i),
            root,
            s.nodes.len(),
        )),
        node_ref(s.nodes, i).index() == i,
{
}

/// The boot-time authority of the console demo, granted on an empty system: root receives
/// the UART and an endpoint with every right, the console a UART-write child, the app an
/// endpoint-write child. Each grant succeeds; the console and the app then resolve their
/// children, the app has no UART capability, and revoking root's endpoint takes exactly
/// the endpoint and the app's child, leaving the UART grants intact.
pub proof fn lemma_boot_authority(s: CapState, uart: Object, endpoint: Object)
    requires
        s.is_empty_system(),
        s.spaces.len() >= 3,
        forall|t: int| 0 <= t < s.spaces.len() ==> (#[trigger] s.spaces[t]).len() >= 2,
        4 <= s.nodes.len() <= 0x10000,
    ensures
        ({
            let all = Rights::from_bits(0x0f);
            let write = Rights::from_bits(2);
            let (c1, r1) = s.create_root(0, 0, uart, all);
            let (c2, r2) = c1.mint(0, 0, 1, 0, write);
            let (c3, r3) = c2.create_root(0, 1, endpoint, all);
            let (c4, r4) = c3.mint(0, 1, 2, 1, write);
            let (c5, r5) = c4.revoke(0, 1);
            &&& r1 == Ok::<(), CapError>(())
            &&& r2 == Ok::<(), CapError>(())
            &&& r3 == Ok::<(), CapError>(())
            &&& r4 == Ok::<(), CapError>(())
            &&& c4.resolve(1, 0, write) == Ok::<ResolvedCapability, CapError>(
                ResolvedCapability { object: uart, rights: write },
            )
            &&& c4.resolve(2, 1, write) == Ok::<ResolvedCapability, CapError>(
                ResolvedCapability { object: endpoint, rights: write },
            )
            &&& c4.resolve(2, 0, write) == Err::<ResolvedCapability, CapError>(CapError::EmptySlot)
            &&& r5 == Ok::<usize, CapError>(2)
            &&& c5.resolve(2, 1, write) == Err::<ResolvedCapability, CapError>(CapError::EmptySlot)
            &&& c5.resolve(0, 1, write) == Err::<ResolvedCapability, CapError>(CapError::EmptySlot)
            &&& c5.resolve(1, 0, write) == c4.resolve(1, 0, write)
            &&& c5.resolve(0, 0, all) == Ok::<ResolvedCapability, CapError>(
                ResolvedCapability { object: uart, rights: all },
            )
        }),
{
    let all = Rights::from_bits(0x0f);
    let write = Rights::from_bits(2);
    assert(0x0fu8 & 4u8 == 4u8) by (bit_vector);
    assert(0x0fu8 & 2u8 == 2u8) by (bit_vector);
    assert(0x0fu8 & 0x0fu8 == 0x0fu8) by (bit_vector);
    assert(2u8 & 2u8 == 2u8) by (bit_vector);
    assert(all.has_grant() && all.includes(write) && all.includes(all) && write.includes(write));
    // root UART in node 0
    assert(s.spaces[0][0] is None);
    assert(s.is_first_free(0));
    lemma_first_free_unique(s, 0);
    let c1 = s.create_root(0, 0, uart, all).0;
    let ref0 = CapRef { node: 0, generation: s.nodes[0].generation };
    assert(c1.spaces[0][0] == Some(ref0));
    assert(c1.nodes[0] == (Node { object: uart, rights: all, parent: None, generation: s.nodes[0].generation, live: true }));
    // console UART child in node 1
    assert(c1.spaces[1][0] == s.spaces[1][0]);
    assert(s.spaces[1][0] is None);
    assert(c1.slot_entry(0, 0) == Ok::<CapRef, CapError>(ref0));
    assert(c1.is_first_free(1));
    lemma_first_free_unique(c1, 1);
    let c2 = c1.mint(0, 0, 1, 0, write).0;
    let ref1 = CapRef { node: 1, generation: s.nodes[1].generation };
    assert(c2.spaces[1][0] == Some(ref1));
    assert(c2.spaces[0][0] == Some(ref0));
    assert(c2.nodes[1] == (Node { object: uart, rights: write, parent: Some(ref0), generation: s.nodes[1].generation, live: true }));
    assert(c2.nodes[0] == c1.nodes[0]);
    // root endpoint in node 2
    assert(c2.spaces[0][1] == s.spaces[0][1]);
    assert(s.spaces[0][1] is None);
    assert(c2.is_first_free(2));
    lemma_first_free_unique(c2, 2);
    let c3 = c2.create_root(0, 1, endpoint, all).0;
    let ref2 = CapRef { node: 2, generation: s.nodes[2].generation };
    assert(c3.spaces[0][1] == Some(ref2));
    assert(c3.spaces[1][0] == Some(ref1));
    assert(c3.spaces[0][0] == Some(ref0));
    assert(c3.nodes[2] == (Node { object: endpoint, rights: all, parent: None, generation: s.nodes[2].generation, live: true }));
    // app endpoint child in node 3
    assert(c3.spaces[2][1] == s.spaces[2][1]);
    assert(s.spaces[2][1] is None);
    assert(c3.slot_entry(0, 1) == Ok::<CapRef, CapError>(ref2));
    assert(c3.is_first_free(3));
    lemma_first_free_unique(c3, 3);
    let c4 = c3.mint(0, 1, 2, 1, write).0;
    let ref3 = CapRef { node: 3, generation: s.nodes[3].generation };
    assert(c4.spaces[2][1] == Some(ref3));
    assert(c4.spaces[0][1] == Some(ref2));
    assert(c4.spaces[1][0] == Some(ref1));
    assert(c4.spaces[0][0] == Some(ref0));
    assert(c4.spaces[2][0] == s.spaces[2][0]);
    assert(s.spaces[2][0] is None);
    assert(c4.nodes[3] == (Node { object: endpoint, rights: write, parent: Some(ref2), generation: s.nodes[3].generation, live: true }));
    assert(c4.nodes[0] == c1.nodes[0]);
    assert(c4.nodes[1] == c2.nodes[1]);
    assert(c4.nodes[2] == c3.nodes[2]);
    assert forall|i: int| 4 <= i < c4.nodes.len() implies !(#[trigger] c4.nodes[i]).live by {
        assert(c4.nodes[i] == s.nodes[i]);
    }
    // revoking the root endpoint kills nodes 2 and 3 only
    let len = c4.nodes.len();
    assert(c4.slot_entry(0, 1) == Ok::<CapRef, CapError>(ref2));
    assert(node_ref(c4.nodes, 2) == ref2);
    assert(c4.in_subtree(ref2, 2));
    assert(reaches(c4.nodes, ref2, ref2, (len - 1) as nat));
    assert(c4.in_subtree(ref2, 3));
    assert(!reaches(c4.nodes, ref0, ref2, (len - 1) as nat));
    assert(!c4.in_subtree(ref2, 0));
    assert(!reaches(c4.nodes, node_ref(c4.nodes, 1), ref2, len));
    assert(!c4.in_subtree(ref2, 1));
    assert(c4.subtree_count(ref2, 0) == 0);
    assert(c4.subtree_count(ref2, 1) == 0);
    assert(c4.subtree_count(ref2, 2) == 0);
    assert(c4.subtree_count(ref2, 3) == 1);
    assert(c4.subtree_count(ref2, 4) == 2);
    lemma_subtree_count_tail(c4, ref2, 4, len);
    let c5 = c4.revoke(0, 1).0;
    let nodes5 = c4.revoked_nodes(ref2);
    assert(!nodes5[2].live);
    assert(!nodes5[3].live);
    assert(nodes5[0] == c4.nodes[0]);
    assert(nodes5[1] == c4.nodes[1]);
    assert(c5.spaces[2][1] == cleared(nodes5, c4.spaces[2][1]));
    assert(c5.spaces[0][1] == cleared(nodes5, c4.spaces[0][1]));
    assert(c5.spaces[1][0] == cleared(nodes5, c4.spaces[1][0]));
    assert(c5.spaces[0][0] == cleared(nodes5, c4.spaces[0][0]));
}

} // verus!
