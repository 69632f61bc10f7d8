//! The group state: the key tree over the roster, and the handshakes that
//! move it from one epoch to the next.

use crate::application::first_chain_key;
use crate::application::AppKeyChain;
use crate::bytes::slice_eq;
use crate::error::Error;
use crate::handshake::first_segment;
use crate::handshake::Handshake;
use crate::handshake::Operation;
use crate::handshake::Segment;
use crate::secrets::lemma_path_secret_add;
use crate::secrets::node_private;
use crate::secrets::node_public;
use crate::secrets::path_secret;
use crate::secrets::PathSecret;
use crate::secrets::PathSecretRequest;
use crate::tree_math::ancestor;
use crate::tree_math::ancestor_of;
use crate::tree_math::common_level;
use crate::tree_math::common_level_of;
use crate::tree_math::depth_for;
use crate::tree_math::lemma_ancestor_in_level;
use crate::tree_math::lemma_common_level;
use crate::tree_math::lemma_pow2_max;
use crate::tree_math::lemma_pow2_monotonic;
use crate::tree_math::lemma_tree_depth_bounds;
use crate::tree_math::pow2;
use crate::tree_math::power_of_two;
use crate::tree_math::tree_depth;
use crate::tree_math::MAX_DEPTH;
use crate::tree_math::MAX_ROSTER;
use vstd::prelude::*;

verus! {

/// A node of the key tree.
#[derive(Clone, Copy, Debug)]
pub enum TreeNode {
    /// A node that holds no key: a leaf without a member, or a node that no
    /// handshake has reached yet.
    Blank,
    /// A node with a key pair. The public key is known to every member; the
    /// path secret, from which the private key is derived, only to the
    /// members below the node that have learnt it.
    Filled { public_key: [u8; 32], secret: Option<PathSecret> },
}

impl TreeNode {
    /// The public key of the node, if it has one.
    pub open spec fn public(&self) -> Option<Seq<u8>> {
        match *self {
            TreeNode::Blank => None,
            TreeNode::Filled { public_key, .. } => Some(public_key@),
        }
    }

    /// The path secret of the node, if it is held.
    pub open spec fn secret(&self) -> Option<Seq<u8>> {
        match *self {
            TreeNode::Filled { secret: Some(s), .. } => Some(s@),
            _ => None,
        }
    }

    /// Whether the key pair of the node is derived from its path secret,
    /// where the node holds one: the private key has the length of a key,
    /// and the public key is the one that belongs to it.
    pub open spec fn consistent(&self) -> bool {
        self.secret() matches Some(s) ==> self.public() == Some(node_public(s)) && node_private(
            s,
        ).len() == 32
    }

    /// Checks that the key pair of the node is derived from its path
    /// secret, where the node holds one.
    pub fn is_consistent(&self) -> (ok: bool)
        ensures
            ok == self.consistent(),
    {
        match *self {
            TreeNode::Filled { public_key, secret: Some(s) } => {
                let derived = s.public_key();
                slice_eq(derived.as_slice(), public_key.as_slice())
            },
            _ => true,
        }
    }

    /// The node without its secret.
    pub fn public_part(&self) -> (node: TreeNode)
        ensures
            node.public() == self.public(),
            node.secret().is_none(),
    {
        match *self {
            TreeNode::Blank => TreeNode::Blank,
            TreeNode::Filled { public_key, .. } => TreeNode::Filled { public_key, secret: None },
        }
    }
}

/// A node on a derived path: its path secret and its public key.
#[derive(Clone, Copy, Debug)]
pub struct PathNode {
    pub secret: PathSecret,
    pub public_key: [u8; 32],
}

/// The state of the group as one member holds it.
///
/// The roster of a group has at most [`MAX_ROSTER`] indices. That is the
/// library's own limit: roster indices are `u32`, but a state holds every
/// node of the tree, and no group is let grow beyond what a member can
/// hold.
#[derive(Debug)]
pub struct GroupState {
    pub(crate) my_roster_idx: u32,
    pub(crate) roster_len: u32,
    pub(crate) epoch: u32,
    pub(crate) levels: Vec<Vec<TreeNode>>,
}

/// Whether `secrets` holds the path secrets from `start` upwards, one for
/// each level.
pub open spec fn climbs_from(secrets: Seq<PathSecret>, start: Seq<u8>) -> bool {
    forall|i: int|
        0 <= i < secrets.len() ==> (#[trigger] secrets[i])@ == path_secret(start, i as nat)
}

/// The path secrets from `start` up to `levels` levels above it.
pub fn climb(start: &PathSecret, levels: usize) -> (secrets: Vec<PathSecret>)
    requires
        levels <= MAX_DEPTH,
    ensures
        secrets@.len() == levels + 1,
        climbs_from(secrets@, start@),
{
    let mut secrets: Vec<PathSecret> = Vec::new();
    secrets.push(*start);
    let mut i: usize = 0;
    while i < levels
        invariant
            i <= levels,
            secrets@.len() == i + 1,
            climbs_from(secrets@, start@),
        decreases levels - i,
    {
        let next = secrets[i].parent();
        secrets.push(next);
        i += 1;
    }
    secrets
}

impl GroupState {
    /// The roster index of the member that holds this state.
    pub closed spec fn spec_my_roster_idx(&self) -> u32 {
        self.my_roster_idx
    }

    /// The number of roster indices in use.
    pub closed spec fn spec_roster_len(&self) -> u32 {
        self.roster_len
    }

    /// The current epoch.
    pub closed spec fn spec_epoch(&self) -> u32 {
        self.epoch
    }

    /// The depth of the tree: the number of levels above the leaves.
    pub closed spec fn depth(&self) -> nat {
        (self.levels@.len() - 1) as nat
    }

    /// The node at `offset` of `level`; a place outside the tree is blank.
    pub closed spec fn node(&self, level: int, offset: int) -> TreeNode {
        if 0 <= level < self.levels@.len() && 0 <= offset < self.levels@[level]@.len() {
            self.levels@[level]@[offset]
        } else {
            TreeNode::Blank
        }
    }

    /// Whether the tree is complete: level `k` of a tree of depth `d` has
    /// `pow2(d - k)` nodes.
    pub closed spec fn complete(&self) -> bool {
        &&& self.levels@.len() >= 1
        &&& forall|k: int|
            0 <= k < self.levels@.len() ==> (#[trigger] self.levels@[k])@.len() == pow2(
                (self.levels@.len() - 1 - k) as nat,
            )
    }

    /// The invariant of a group state: the tree is the smallest complete
    /// tree with a leaf for every roster index, the leaves beyond the roster
    /// are blank, and the key pair of every node whose path secret is held
    /// is derived from that secret.
    pub open spec fn wf(&self) -> bool {
        &&& 1 <= self.roster_len() <= MAX_ROSTER
        &&& self.complete()
        &&& self.depth() == tree_depth(self.roster_len() as nat)
        &&& forall|i: int| self.roster_len() <= i ==> #[trigger] self.node(0, i) is Blank
        &&& forall|k: int, o: int| (#[trigger] self.node(k, o)).consistent()
    }

    /// Whether `idx` is a roster index with a member at it.
    pub open spec fn live(&self, idx: int) -> bool {
        0 <= idx < self.roster_len() && self.node(0, idx) is Filled
    }

    /// Whether the member that holds this state is in the roster.
    pub open spec fn is_member(&self) -> bool {
        self.live(self.my_roster_idx() as int)
    }

    /// The roster index of the member that holds this state.
    #[verifier::when_used_as_spec(spec_my_roster_idx)]
    pub fn my_roster_idx(&self) -> (idx: u32)
        ensures
            idx == self.spec_my_roster_idx(),
    {
        self.my_roster_idx
    }

    /// The number of roster indices in use.
    #[verifier::when_used_as_spec(spec_roster_len)]
    pub fn roster_len(&self) -> (len: u32)
        ensures
            len == self.spec_roster_len(),
    {
        self.roster_len
    }

    /// The current epoch.
    #[verifier::when_used_as_spec(spec_epoch)]
    pub fn epoch(&self) -> (epoch: u32)
        ensures
            epoch == self.spec_epoch(),
    {
        self.epoch
    }

    /// A group of one member, at roster index 0 and epoch 0, whose leaf
    /// secret is the one that `req` has for that member and epoch.
    pub fn new(req: &PathSecretRequest) -> (result: Result<GroupState, Error>)
        ensures
            (match result {
                Ok(state) => req.secret_at(0, 0) matches Some(s) && state.wf()
                    && state.my_roster_idx() == 0 && state.roster_len() == 1 && state.epoch() == 0
                    && state.depth() == 0 && state.node(0, 0).secret() == Some(s) && state.node(
                    0,
                    0,
                ).public() == Some(node_public(s)),
                Err(e) => e == Error::MissingSecret && req.secret_at(0, 0).is_none(),
            }),
    {
        let secret = match req.path_secret(0, 0) {
            Some(secret) => secret,
            None => return Err(Error::MissingSecret),
        };
        let public_key = secret.public_key();
        let mut leaves: Vec<TreeNode> = Vec::new();
        leaves.push(TreeNode::Filled { public_key, secret: Some(secret) });
        let mut levels: Vec<Vec<TreeNode>> = Vec::new();
        levels.push(leaves);
        let state = GroupState { my_roster_idx: 0, roster_len: 1, epoch: 0, levels };
        proof {
            assert(pow2(0) == 1);
            assert(tree_depth(1) == 0);
        }
        Ok(state)
    }

    /// The same tree as another member would hold it: with the given roster
    /// index, and with the secrets that this state holds.
    pub fn with_roster_idx(&self, new_idx: u32) -> (state: GroupState)
        requires
            self.wf(),
        ensures
            state.wf(),
            state.my_roster_idx() == new_idx,
            state.roster_len() == self.roster_len(),
            state.epoch() == self.epoch(),
            state.depth() == self.depth(),
            forall|k: int, o: int| #[trigger] state.node(k, o) == self.node(k, o),
    {
        let mut levels: Vec<Vec<TreeNode>> = Vec::new();
        let mut k: usize = 0;
        while k < self.levels.len()
            invariant
                k <= self.levels@.len(),
                levels@.len() == k,
                forall|j: int| 0 <= j < k ==> (#[trigger] levels@[j])@ == self.levels@[j]@,
            decreases self.levels.len() - k,
        {
            let mut level: Vec<TreeNode> = Vec::new();
            let mut o: usize = 0;
            while o < self.levels[k].len()
                invariant
                    k < self.levels@.len(),
                    o <= self.levels@[k as int]@.len(),
                    level@.len() == o,
                    forall|j: int| 0 <= j < o ==> level@[j] == self.levels@[k as int]@[j],
                decreases self.levels@[k as int]@.len() - o,
            {
                level.push(self.levels[k][o]);
                o += 1;
            }
            assert(level@ =~= self.levels@[k as int]@);
            levels.push(level);
            k += 1;
        }
        let state = GroupState {
            my_roster_idx: new_idx,
            roster_len: self.roster_len,
            epoch: self.epoch,
            levels,
        };
        assert forall|i: int| state.roster_len() <= i implies #[trigger] state.node(0, i)
            is Blank by {
            assert(state.node(0, i) == self.node(0, i));
        }
        assert forall|k: int, o: int| (#[trigger] state.node(k, o)).consistent() by {
            assert(state.node(k, o) == self.node(k, o));
        }
        state
    }

    /// Checks the invariant of the state.
    pub fn is_well_formed(&self) -> (ok: bool)
        ensures
            ok == self.wf(),
    {
        if self.roster_len < 1 || self.roster_len > MAX_ROSTER {
            return false;
        }
        let depth: usize = depth_for(self.roster_len);
        if self.levels.len() != depth + 1 {
            return false;
        }
        let mut k: usize = 0;
        while k <= depth
            invariant
                k <= depth + 1,
                depth <= MAX_DEPTH,
                self.levels@.len() == depth + 1,
                forall|j: int|
                    0 <= j < k ==> (#[trigger] self.levels@[j])@.len() == pow2((depth - j) as nat),
            decreases depth + 1 - k,
        {
            if self.levels[k].len() != power_of_two(depth - k) as usize {
                return false;
            }
            k += 1;
        }
        let mut i: usize = self.roster_len as usize;
        proof {
            assert(pow2((depth - 0) as nat) == pow2(depth as nat));
        }
        while i < self.levels[0].len()
            invariant
                self.roster_len() <= i <= self.levels@[0]@.len(),
                self.levels@.len() >= 1,
                forall|j: int| self.roster_len() <= j < i ==> #[trigger] self.node(0, j) is Blank,
            decreases self.levels@[0]@.len() - i,
        {
            match self.levels[0][i] {
                TreeNode::Filled { .. } => {
                    assert(!(self.node(0, i as int) is Blank));
                    return false;
                },
                TreeNode::Blank => {},
            }
            i += 1;
        }
        let mut k: usize = 0;
        while k < self.levels.len()
            invariant
                k <= self.levels@.len(),
                forall|j: int, o: int| 0 <= j < k ==> (#[trigger] self.node(j, o)).consistent(),
            decreases self.levels.len() - k,
        {
            let mut o: usize = 0;
            while o < self.levels[k].len()
                invariant
                    k < self.levels@.len(),
                    o <= self.levels@[k as int]@.len(),
                    forall|p: int| 0 <= p < o ==> (#[trigger] self.node(k as int, p)).consistent(),
                decreases self.levels@[k as int]@.len() - o,
            {
                if !self.levels[k][o].is_consistent() {
                    assert(!self.node(k as int, o as int).consistent());
                    return false;
                }
                o += 1;
            }
            k += 1;
        }
        true
    }

    /// The tree as someone outside the group sees it, who is to join at
    /// `new_idx`: the public keys without the secrets.
    pub fn public_view(&self, new_idx: u32) -> (state: GroupState)
        requires
            self.wf(),
        ensures
            state.wf(),
            state.my_roster_idx() == new_idx,
            state.roster_len() == self.roster_len(),
            state.epoch() == self.epoch(),
            state.depth() == self.depth(),
            forall|k: int, o: int|
                (#[trigger] state.node(k, o)).public() == self.node(k, o).public() && state.node(
                    k,
                    o,
                ).secret().is_none(),
    {
        let mut levels: Vec<Vec<TreeNode>> = Vec::new();
        let mut k: usize = 0;
        while k < self.levels.len()
            invariant
                k <= self.levels@.len(),
                levels@.len() == k,
                forall|j: int|
                    0 <= j < k ==> (#[trigger] levels@[j])@.len() == self.levels@[j]@.len(),
                forall|j: int, o: int|
                    0 <= j < k && 0 <= o < self.levels@[j]@.len() ==> (
                    #[trigger] levels@[j]@[o]).public() == self.levels@[j]@[o].public()
                        && levels@[j]@[o].secret().is_none(),
            decreases self.levels.len() - k,
        {
            let mut level: Vec<TreeNode> = Vec::new();
            let mut o: usize = 0;
            while o < self.levels[k].len()
                invariant
                    k < self.levels@.len(),
                    o <= self.levels@[k as int]@.len(),
                    level@.len() == o,
                    forall|j: int|
                        0 <= j < o ==> (#[trigger] level@[j]).public()
                            == self.levels@[k as int]@[j].public() && level@[j].secret().is_none(),
                decreases self.levels@[k as int]@.len() - o,
            {
                level.push(self.levels[k][o].public_part());
                o += 1;
            }
            levels.push(level);
            k += 1;
        }
        let state = GroupState {
            my_roster_idx: new_idx,
            roster_len: self.roster_len,
            epoch: self.epoch,
            levels,
        };
        assert forall|i: int| state.roster_len() <= i implies #[trigger] state.node(0, i)
            is Blank by {
            assert(state.node(0, i).public() == self.node(0, i).public());
            assert(self.node(0, i) is Blank);
        }
        state
    }

    /// Whether `idx` is a roster index with a member at it.
    pub fn is_live(&self, idx: u32) -> (live: bool)
        ensures
            live == self.live(idx as int),
    {
        if idx >= self.roster_len || self.levels.len() == 0 {
            return false;
        }
        if idx as usize >= self.levels[0].len() {
            return false;
        }
        match self.levels[0][idx as usize] {
            TreeNode::Filled { .. } => true,
            TreeNode::Blank => false,
        }
    }

    /// The node at `offset` of `level`.
    pub fn tree_node(&self, level: usize, offset: usize) -> (node: TreeNode)
        ensures
            node == self.node(level as int, offset as int),
    {
        if level < self.levels.len() && offset < self.levels[level].len() {
            self.levels[level][offset]
        } else {
            TreeNode::Blank
        }
    }

    /// The root secret of `epoch`: the path secret of the root, which the
    /// member holds for the current epoch once it has derived its path.
    pub fn root_secret(&self, epoch: u32) -> (result: Result<PathSecret, Error>)
        requires
            self.wf(),
        ensures
            (match result {
                Ok(secret) => epoch == self.epoch() && self.node(self.depth() as int, 0).secret()
                    == Some(secret@),
                Err(e) => e == Error::MissingSecret && (epoch != self.epoch() || self.node(
                    self.depth() as int,
                    0,
                ).secret().is_none()),
            }),
    {
        if epoch != self.epoch {
            return Err(Error::MissingSecret);
        }
        proof {
            assert(pow2(0) == 1);
        }
        let top: usize = self.levels.len() - 1;
        match self.tree_node(top, 0) {
            TreeNode::Filled { secret: Some(secret), .. } => Ok(secret),
            _ => Err(Error::MissingSecret),
        }
    }

    /// The path from the leaf of `roster_idx` to the root, derived from the
    /// leaf secret that `req` has for that member at `epoch`: for each level
    /// the path secret and the public key of the node.
    pub fn derive_path(&self, req: &PathSecretRequest, roster_idx: u32, epoch: u32) -> (result:
        Result<Vec<PathNode>, Error>)
        requires
            self.wf(),
        ensures
            (match result {
                Ok(path) => {
                    &&& self.live(roster_idx as int)
                    &&& req.secret_at(roster_idx, epoch) matches Some(s)
                    &&& path@.len() == self.depth() + 1
                    &&& forall|k: int|
                        0 <= k < path@.len() ==> (#[trigger] path@[k]).secret@ == path_secret(
                            s,
                            k as nat,
                        ) && path@[k].public_key@ == node_public(path_secret(s, k as nat))
                },
                Err(Error::UnknownMember) => !self.live(roster_idx as int),
                Err(Error::MissingSecret) => self.live(roster_idx as int) && req.secret_at(
                    roster_idx,
                    epoch,
                ).is_none(),
                Err(_) => false,
            }),
    {
        if !self.is_live(roster_idx) {
            return Err(Error::UnknownMember);
        }
        let leaf = match req.path_secret(roster_idx, epoch) {
            Some(leaf) => leaf,
            None => return Err(Error::MissingSecret),
        };
        proof {
            lemma_tree_depth_bounds(self.roster_len() as nat);
            lemma_pow2_max();
            crate::tree_math::lemma_tree_depth_monotonic(
                self.roster_len() as nat,
                MAX_ROSTER as nat,
            );
            crate::tree_math::lemma_tree_depth_is(MAX_ROSTER as nat, MAX_DEPTH as nat);
        }
        let depth: usize = self.levels.len() - 1;
        let secrets = climb(&leaf, depth);
        let mut path: Vec<PathNode> = Vec::new();
        let mut k: usize = 0;
        while k < secrets.len()
            invariant
                k <= secrets@.len(),
                path@.len() == k,
                climbs_from(secrets@, leaf@),
                forall|j: int|
                    0 <= j < k ==> (#[trigger] path@[j]).secret@ == path_secret(leaf@, j as nat)
                        && path@[j].public_key@ == node_public(path_secret(leaf@, j as nat)),
            decreases secrets.len() - k,
        {
            let secret = secrets[k];
            path.push(PathNode { secret, public_key: secret.public_key() });
            k += 1;
        }
        Ok(path)
    }
}

/// Whether the public keys of `handshake` from level `from` upwards are
/// those that follow from `secret`, the path secret at level `from`.
pub open spec fn keys_match(handshake: &Handshake, secret: Seq<u8>, from: nat) -> bool {
    forall|k: int|
        from <= k < handshake.path_keys@.len() ==> (#[trigger] handshake.path_keys@[k])@
            == node_public(path_secret(secret, (k - from) as nat))
}

impl GroupState {
    /// Whether the state admits `op` from `sender`. A member adds itself, at
    /// the end of the roster or at a blank leaf, and below the library's
    /// limit [`MAX_ROSTER`]; a member updates itself; a member removes
    /// another member.
    pub open spec fn admits(&self, sender: u32, op: Operation) -> bool {
        match op {
            Operation::Add(idx) => sender == idx && idx < MAX_ROSTER && idx <= self.roster_len()
                && !self.live(idx as int),
            Operation::Update(idx) => sender == idx && self.live(idx as int),
            Operation::Remove(idx) => sender != idx && self.live(idx as int) && self.live(
                sender as int,
            ),
        }
    }

    /// The length of the roster after `op`.
    pub open spec fn next_roster_len(&self, op: Operation) -> u32 {
        if op.target() >= self.roster_len() {
            (op.target() + 1) as u32
        } else {
            self.roster_len()
        }
    }

    /// The depth of the tree after `op`.
    pub open spec fn next_depth(&self, op: Operation) -> nat {
        tree_depth(self.next_roster_len(op) as nat)
    }

    /// The level of the path of `op` at which this member learns a path
    /// secret: the leaf if it made the handshake itself, the lowest node
    /// that lies above its own leaf otherwise.
    pub open spec fn recovery_level(&self, sender: u32, op: Operation) -> nat {
        if sender == self.my_roster_idx() {
            0
        } else {
            common_level(op.target() as nat, self.my_roster_idx() as nat)
        }
    }

    /// The path secret that this member recovers from `handshake`: its own
    /// fresh secret if it made the handshake, and otherwise what the segment
    /// for it opens to under the private key of its leaf.
    pub open spec fn recovered(&self, handshake: &Handshake, req: &PathSecretRequest) -> Result<
        Seq<u8>,
        Error,
    > {
        if handshake.sender == self.my_roster_idx() {
            match req.secret_at(self.my_roster_idx(), (self.epoch() + 1) as u32) {
                Some(s) => Ok(s),
                None => Err(Error::MissingSecret),
            }
        } else {
            match self.node(0, self.my_roster_idx() as int).secret() {
                None => Err(Error::MissingSecret),
                Some(leaf) => match first_segment(handshake.segments@, self.my_roster_idx()) {
                    None => Err(Error::MissingSecret),
                    Some(at) => match handshake.segments@[at].opened(node_private(leaf)) {
                        None => Err(Error::HandshakeDecodeError),
                        Some(s) => Ok(s),
                    },
                },
            }
        }
    }

    /// What applying `handshake` to this state comes to: the path secret
    /// that the member recovers, or the reason the handshake is refused.
    pub open spec fn outcome(&self, handshake: &Handshake, req: &PathSecretRequest) -> Result<
        Seq<u8>,
        Error,
    > {
        if handshake.prior_epoch != self.epoch() || self.epoch() == u32::MAX {
            Err(Error::HandshakeDecodeError)
        } else if !self.admits(handshake.sender, handshake.op) {
            Err(Error::UnknownMember)
        } else if handshake.path_keys@.len() != self.next_depth(handshake.op) + 1 {
            Err(Error::HandshakeDecodeError)
        } else if self.my_roster_idx() >= self.next_roster_len(handshake.op) || (handshake.op
            is Remove && handshake.op.target() == self.my_roster_idx()) {
            Err(Error::UnknownMember)
        } else {
            match self.recovered(handshake, req) {
                Err(e) => Err(e),
                Ok(s) => if keys_match(
                    handshake,
                    s,
                    self.recovery_level(handshake.sender, handshake.op),
                ) {
                    Ok(s)
                } else {
                    Err(Error::HandshakeDecodeError)
                },
            }
        }
    }

    /// Whether `node` is what the node at `level` of the path of
    /// `handshake` becomes for a member that recovered `secret` at level
    /// `from`: blank for the leaf of a removed member, and otherwise filled
    /// with the public key of the handshake, and with the path secret where
    /// the member can derive it.
    pub open spec fn path_node_is(
        node: TreeNode,
        handshake: &Handshake,
        secret: Seq<u8>,
        from: nat,
        level: int,
    ) -> bool {
        if handshake.op is Remove && level == 0 {
            node is Blank
        } else {
            &&& node.public() == Some(handshake.path_keys@[level]@)
            &&& node.secret() == if level >= from {
                Some(path_secret(secret, (level - from) as nat))
            } else {
                None
            }
        }
    }

    /// Whether this state is `before` after `handshake`, from which the
    /// member recovered `secret`: the epoch is one later, the roster and the
    /// tree have grown where a member was added beyond them, the nodes on
    /// the path of the changed leaf are new, and every other node is as it
    /// was.
    pub open spec fn follows(&self, before: &GroupState, handshake: &Handshake, secret: Seq<u8>)
        -> bool {
        &&& self.wf()
        &&& self.my_roster_idx() == before.my_roster_idx()
        &&& self.roster_len() == before.next_roster_len(handshake.op)
        &&& self.epoch() == before.epoch() + 1
        &&& self.depth() == before.next_depth(handshake.op)
        &&& forall|k: int, o: int|
            0 <= k <= self.depth() && 0 <= o < pow2((self.depth() - k) as nat) ==> if o
                == ancestor(handshake.op.target() as nat, k as nat) {
                GroupState::path_node_is(
                    #[trigger] self.node(k, o),
                    handshake,
                    secret,
                    before.recovery_level(handshake.sender, handshake.op),
                    k,
                )
            } else {
                self.node(k, o) == before.node(k, o)
            }
    }

    /// The tree of this state with the nodes of `path` in place of those
    /// from the leaf of `target` up to the root, in a tree of depth
    /// `new_depth`.
    fn rebuilt(&self, new_depth: usize, target: u32, path: &Vec<TreeNode>) -> (levels: Vec<
        Vec<TreeNode>,
    >)
        requires
            new_depth <= MAX_DEPTH,
            path@.len() == new_depth + 1,
        ensures
            levels@.len() == new_depth + 1,
            forall|k: int|
                0 <= k <= new_depth ==> (#[trigger] levels@[k])@.len() == pow2(
                    (new_depth - k) as nat,
                ),
            forall|k: int, o: int|
                0 <= k <= new_depth && 0 <= o < pow2((new_depth - k) as nat) ==> (
                #[trigger] levels@[k]@[o]) == if o == ancestor(target as nat, k as nat) {
                    path@[k]
                } else {
                    self.node(k, o)
                },
    {
        let mut levels: Vec<Vec<TreeNode>> = Vec::new();
        let mut k: usize = 0;
        let mut on_path: u32 = target;
        while k <= new_depth
            invariant
                k <= new_depth + 1,
                new_depth <= MAX_DEPTH,
                path@.len() == new_depth + 1,
                on_path == ancestor(target as nat, k as nat),
                levels@.len() == k,
                forall|j: int|
                    0 <= j < k ==> (#[trigger] levels@[j])@.len() == pow2((new_depth - j) as nat),
                forall|j: int, o: int|
                    0 <= j < k && 0 <= o < pow2((new_depth - j) as nat) ==> (
                    #[trigger] levels@[j]@[o]) == if o == ancestor(target as nat, j as nat) {
                        path@[j]
                    } else {
                        self.node(j, o)
                    },
            decreases new_depth + 1 - k,
        {
            let width: u32 = power_of_two(new_depth - k);
            let mut level: Vec<TreeNode> = Vec::new();
            let mut o: u32 = 0;
            while o < width
                invariant
                    o <= width,
                    k <= new_depth,
                    path@.len() == new_depth + 1,
                    level@.len() == o,
                    forall|j: int|
                        0 <= j < o ==> (#[trigger] level@[j]) == if j == on_path {
                            path@[k as int]
                        } else {
                            self.node(k as int, j)
                        },
                decreases width - o,
            {
                if o == on_path {
                    level.push(path[k]);
                } else {
                    level.push(self.tree_node(k, o as usize));
                }
                o += 1;
            }
            levels.push(level);
            on_path = on_path / 2;
            k += 1;
        }
        levels
    }
}

impl GroupState {
    /// Whether a handshake for `op` made by this member holds a segment for
    /// the member at `idx`: every member but the one whose leaf changes and
    /// the maker itself.
    pub open spec fn eligible(&self, op: Operation, idx: int) -> bool {
        self.live(idx) && idx != op.target() && idx != self.my_roster_idx()
    }

    /// The public key of the leaf of `idx`, where it has one.
    pub open spec fn leaf_key(&self, idx: int) -> Seq<u8> {
        self.node(0, idx).public().unwrap()
    }

    /// Whether `segment` is the segment that a handshake for `op` with the
    /// leaf secret `secret` holds for its recipient: the path secret of the
    /// lowest node above both the changed leaf and the recipient's, sealed
    /// for the recipient's leaf key so that the holder of that leaf opens
    /// it.
    pub open spec fn segment_is(&self, op: Operation, secret: Seq<u8>, segment: Segment) -> bool {
        &&& self.eligible(op, segment.recipient as int)
        &&& segment.seals(
            path_secret(secret, common_level(op.target() as nat, segment.recipient as nat)),
            self.leaf_key(segment.recipient as int),
        )
        &&& segment.delivers(
            path_secret(secret, common_level(op.target() as nat, segment.recipient as nat)),
            self.leaf_key(segment.recipient as int),
        )
    }

    /// Whether `handshake` is the handshake that this member makes for `op`
    /// from the fresh leaf secret `secret`: it names the epoch, the maker
    /// and the operation, it carries the public keys of the new path, and
    /// it holds one segment for each eligible member, in the order of the
    /// roster.
    pub open spec fn makes(&self, op: Operation, secret: Seq<u8>, handshake: &Handshake) -> bool {
        &&& handshake.prior_epoch == self.epoch()
        &&& handshake.sender == self.my_roster_idx()
        &&& handshake.op == op
        &&& handshake.path_keys@.len() == self.next_depth(op) + 1
        &&& keys_match(handshake, secret, 0)
        &&& forall|i: int|
            0 <= i < handshake.segments@.len() ==> self.segment_is(
                op,
                secret,
                #[trigger] handshake.segments@[i],
            )
        &&& forall|i: int, j: int|
            0 <= i < j < handshake.segments@.len() ==> (#[trigger] handshake.segments@[i]).recipient
                < (#[trigger] handshake.segments@[j]).recipient
        &&& forall|idx: int| #[trigger]
            self.eligible(op, idx) ==> exists|i: int|
                0 <= i < handshake.segments@.len() && (
                #[trigger] handshake.segments@[i]).recipient == idx
    }

    /// Whether `chain` is the key chain of this state for the root secret
    /// `root`: a fresh chain for every member, none for a blank leaf.
    pub open spec fn keyed_by(&self, chain: &AppKeyChain, root: Seq<u8>) -> bool {
        &&& chain.roster_len() == self.roster_len()
        &&& forall|i: int|
            0 <= i < self.roster_len() ==> if self.live(i) {
                (#[trigger] chain.slot(i)).is_some() && chain.chain_key(i) == first_chain_key(
                    root,
                    i as u32,
                ) && chain.generation(i) == 0
            } else {
                chain.slot(i).is_none()
            }
    }

    /// Whether the state admits `op` from `sender`.
    pub fn admits_op(&self, sender: u32, op: Operation) -> (admitted: bool)
        ensures
            admitted == self.admits(sender, op),
    {
        match op {
            Operation::Add(idx) => sender == idx && idx < MAX_ROSTER && idx <= self.roster_len
                && !self.is_live(idx),
            Operation::Update(idx) => sender == idx && self.is_live(idx),
            Operation::Remove(idx) => sender != idx && self.is_live(idx) && self.is_live(sender),
        }
    }

    /// The key chain of the current epoch, which the member can derive once
    /// it holds the root secret.
    pub fn key_chain(&self) -> (result: Result<AppKeyChain, Error>)
        requires
            self.wf(),
        ensures
            (match result {
                Ok(chain) => {
                    &&& self.node(self.depth() as int, 0).secret() matches Some(root)
                    &&& self.keyed_by(&chain, root)
                },
                Err(e) => e == Error::MissingSecret && self.node(
                    self.depth() as int,
                    0,
                ).secret().is_none(),
            }),
    {
        let root = match self.root_secret(self.epoch) {
            Ok(root) => root,
            Err(e) => return Err(e),
        };
        let mut live: Vec<bool> = Vec::new();
        let mut i: u32 = 0;
        while i < self.roster_len
            invariant
                i <= self.roster_len() <= MAX_ROSTER,
                live@.len() == i,
                forall|j: int| 0 <= j < i ==> live@[j] == self.live(j),
            decreases self.roster_len - i,
        {
            live.push(self.is_live(i));
            i += 1;
        }
        Ok(AppKeyChain::from_root_secret(&root, &live))
    }

    /// Makes the handshake for `op` from the fresh leaf secret that `req`
    /// has for this member at the next epoch. The state does not change: the
    /// maker applies its own handshake like every other member.
    pub fn create_handshake_for(&self, req: &PathSecretRequest, op: Operation) -> (result: Result<
        Handshake,
        Error,
    >)
        requires
            self.wf(),
        ensures
            (match result {
                Ok(handshake) => {
                    &&& self.epoch() < u32::MAX
                    &&& self.admits(self.my_roster_idx(), op)
                    &&& req.secret_at(self.my_roster_idx(), (self.epoch() + 1) as u32) matches Some(
                        s,
                    )
                    &&& self.makes(op, s, &handshake)
                },
                Err(Error::HandshakeDecodeError) => self.epoch() == u32::MAX,
                Err(Error::UnknownMember) => self.epoch() < u32::MAX && !self.admits(
                    self.my_roster_idx(),
                    op,
                ),
                Err(Error::MissingSecret) => self.epoch() < u32::MAX && self.admits(
                    self.my_roster_idx(),
                    op,
                ) && req.secret_at(self.my_roster_idx(), (self.epoch() + 1) as u32).is_none(),
                Err(_) => false,
            }),
    {
        if self.epoch == u32::MAX {
            return Err(Error::HandshakeDecodeError);
        }
        if !self.admits_op(self.my_roster_idx, op) {
            return Err(Error::UnknownMember);
        }
        let leaf = match req.path_secret(self.my_roster_idx, self.epoch + 1) {
            Some(leaf) => leaf,
            None => return Err(Error::MissingSecret),
        };
        let target: u32 = op.roster_idx();
        let new_len: u32 = if target >= self.roster_len {
            target + 1
        } else {
            self.roster_len
        };
        let new_depth: usize = depth_for(new_len);
        let secrets = climb(&leaf, new_depth);
        let mut path_keys: Vec<[u8; 32]> = Vec::new();
        let mut k: usize = 0;
        while k < secrets.len()
            invariant
                k <= secrets@.len(),
                path_keys@.len() == k,
                climbs_from(secrets@, leaf@),
                forall|j: int|
                    0 <= j < k ==> (#[trigger] path_keys@[j])@ == node_public(
                        path_secret(leaf@, j as nat),
                    ),
            decreases secrets.len() - k,
        {
            path_keys.push(secrets[k].public_key());
            k += 1;
        }
        let mut segments: Vec<Segment> = Vec::new();
        let mut r: u32 = 0;
        while r < self.roster_len
            invariant
                r <= self.roster_len() <= new_len,
                new_len <= pow2(new_depth as nat),
                new_depth <= MAX_DEPTH,
                target == op.target(),
                target < new_len,
                secrets@.len() == new_depth + 1,
                climbs_from(secrets@, leaf@),
                forall|i: int|
                    0 <= i < segments@.len() ==> self.segment_is(
                        op,
                        leaf@,
                        #[trigger] segments@[i],
                    ),
                forall|i: int| 0 <= i < segments@.len() ==> (#[trigger] segments@[i]).recipient < r,
                forall|i: int, j: int|
                    0 <= i < j < segments@.len() ==> (#[trigger] segments@[i]).recipient < (
                    #[trigger] segments@[j]).recipient,
                forall|idx: int|
                    0 <= idx < r && #[trigger] self.eligible(op, idx) ==> exists|i: int|
                        0 <= i < segments@.len() && (#[trigger] segments@[i]).recipient == idx,
            decreases self.roster_len - r,
        {
            if r != target && r != self.my_roster_idx && self.is_live(r) {
                let level: usize = common_level_of(target, r);
                proof {
                    lemma_common_level(target as nat, r as nat, new_depth as nat);
                }
                let recipient_key: [u8; 32] = match self.tree_node(0, r as usize) {
                    TreeNode::Filled { public_key, .. } => public_key,
                    TreeNode::Blank => [0u8; 32],
                };
                let segment = Segment::seal(&secrets[level], r, &recipient_key);
                let ghost before = segments@;
                segments.push(segment);
                proof {
                    let at = before.len() as int;
                    assert(segments@[at] == segment);
                    assert forall|idx: int| 0 <= idx < r + 1 && #[trigger] self.eligible(
                        op,
                        idx,
                    ) implies exists|
                        i: int,
                    |
                        0 <= i < segments@.len() && (#[trigger] segments@[i]).recipient == idx by {
                        if idx < r {
                            let i = choose|i: int|
                                0 <= i < before.len() && (#[trigger] before[i]).recipient == idx;
                            assert(segments@[i] == before[i]);
                        } else {
                            assert(segments@[at].recipient == idx);
                        }
                    }
                }
            }
            r += 1;
        }
        let ghost made = segments@;
        let handshake = Handshake {
            prior_epoch: self.epoch,
            sender: self.my_roster_idx,
            op,
            path_keys,
            segments,
        };
        proof {
            assert(handshake.segments@ == made);
            assert(handshake.path_keys@.len() == self.next_depth(op) + 1);
            assert(keys_match(&handshake, leaf@, 0));
            assert(forall|i: int|
                0 <= i < handshake.segments@.len() ==> self.segment_is(
                    op,
                    leaf@,
                    #[trigger] handshake.segments@[i],
                ));
            assert forall|idx: int| #[trigger] self.eligible(op, idx) implies exists|i: int|
                0 <= i < handshake.segments@.len() && (
                #[trigger] handshake.segments@[i]).recipient == idx by {
                assert(0 <= idx < r);
                let i = choose|i: int| 0 <= i < made.len() && (#[trigger] made[i]).recipient == idx;
                assert(handshake.segments@[i].recipient == idx);
            }
            assert(self.makes(op, leaf@, &handshake));
        }
        Ok(handshake)
    }

    /// Makes the handshake by which this member joins the group, if it is
    /// not in the roster, or renews its leaf secret, if it is.
    pub fn create_handshake(&self, req: &PathSecretRequest) -> (result: Result<Handshake, Error>)
        requires
            self.wf(),
        ensures
            (match result {
                Ok(handshake) => {
                    &&& self.epoch() < u32::MAX
                    &&& self.admits(self.my_roster_idx(), self.own_operation())
                    &&& req.secret_at(self.my_roster_idx(), (self.epoch() + 1) as u32) matches Some(
                        s,
                    )
                    &&& self.makes(self.own_operation(), s, &handshake)
                },
                Err(Error::HandshakeDecodeError) => self.epoch() == u32::MAX,
                Err(Error::UnknownMember) => self.epoch() < u32::MAX && !self.admits(
                    self.my_roster_idx(),
                    self.own_operation(),
                ),
                Err(Error::MissingSecret) => self.epoch() < u32::MAX && self.admits(
                    self.my_roster_idx(),
                    self.own_operation(),
                ) && req.secret_at(self.my_roster_idx(), (self.epoch() + 1) as u32).is_none(),
                Err(_) => false,
            }),
    {
        let op = if self.is_live(self.my_roster_idx) {
            Operation::Update(self.my_roster_idx)
        } else {
            Operation::Add(self.my_roster_idx)
        };
        self.create_handshake_for(req, op)
    }

    /// Whether `other` holds the same group as this state: the same epoch,
    /// the same roster, and the same public key at every leaf.
    pub open spec fn same_group(&self, other: &GroupState) -> bool {
        &&& self.epoch() == other.epoch()
        &&& self.roster_len() == other.roster_len()
        &&& forall|i: int| (#[trigger] self.node(0, i)).public() == other.node(0, i).public()
    }

    /// Whether this state is `before` once its member has applied
    /// `handshake`: the member recovered a path secret from it, and the
    /// state follows with that secret.
    pub open spec fn applied(
        &self,
        before: &GroupState,
        handshake: &Handshake,
        req: &PathSecretRequest,
    ) -> bool {
        before.outcome(handshake, req) matches Ok(secret) && self.follows(
            before,
            handshake,
            secret,
        )
    }

    /// Whether the member of `other` is another member of the group that
    /// this state holds, and holds the secret of its own leaf: the member
    /// for whom a handshake of this member has a segment that it can open.
    pub open spec fn seen_by(&self, other: &GroupState) -> bool {
        &&& other.same_group(self)
        &&& other.my_roster_idx() != self.my_roster_idx()
        &&& other.node(0, other.my_roster_idx() as int).secret().is_some()
    }

    /// The root secret that the member holds, where it holds one.
    pub open spec fn held_root(&self) -> Option<Seq<u8>> {
        self.node(self.depth() as int, 0).secret()
    }

    /// Whether the member cannot make a handshake for itself, and `e` says
    /// why: the epochs have run out, the roster does not admit the
    /// operation, or the source has no fresh secret.
    pub open spec fn refuses_to_make(&self, req: &PathSecretRequest, e: Error) -> bool {
        if self.epoch() == u32::MAX {
            e == Error::HandshakeDecodeError
        } else if !self.admits(self.my_roster_idx(), self.own_operation()) {
            e == Error::UnknownMember
        } else {
            e == Error::MissingSecret && req.secret_at(
                self.my_roster_idx(),
                (self.epoch() + 1) as u32,
            ).is_none()
        }
    }

    /// The operation of a handshake that a member makes for itself: an
    /// update if it is in the roster, and otherwise the addition of itself.
    pub open spec fn own_operation(&self) -> Operation {
        if self.is_member() {
            Operation::Update(self.my_roster_idx())
        } else {
            Operation::Add(self.my_roster_idx())
        }
    }
}

impl GroupState {
    /// The path secret that this member recovers from `handshake`.
    fn recover(&self, handshake: &Handshake, req: &PathSecretRequest) -> (result: Result<
        PathSecret,
        Error,
    >)
        requires
            self.epoch() < u32::MAX,
        ensures
            (match result {
                Ok(secret) => self.recovered(handshake, req) == Ok::<Seq<u8>, Error>(secret@),
                Err(e) => self.recovered(handshake, req) == Err::<Seq<u8>, Error>(e),
            }),
    {
        if handshake.sender == self.my_roster_idx {
            match req.path_secret(self.my_roster_idx, self.epoch + 1) {
                Some(secret) => Ok(secret),
                None => Err(Error::MissingSecret),
            }
        } else {
            let leaf = match self.tree_node(0, self.my_roster_idx as usize) {
                TreeNode::Filled { secret: Some(leaf), .. } => leaf,
                _ => return Err(Error::MissingSecret),
            };
            let segment = match handshake.find_segment(self.my_roster_idx) {
                Some(segment) => segment,
                None => return Err(Error::MissingSecret),
            };
            let private_key = leaf.private_key();
            match segment.open(&private_key) {
                Some(secret) => Ok(secret),
                None => Err(Error::HandshakeDecodeError),
            }
        }
    }

    /// Applies `handshake`: recovers the path secret that it holds for this
    /// member, checks the public keys of the handshake against it, and moves
    /// the state to the next epoch. Returns the key chain of the new epoch.
    /// A handshake that is refused changes nothing.
    pub fn process_handshake(&mut self, handshake: &Handshake, req: &PathSecretRequest) -> (result:
        Result<AppKeyChain, Error>)
        requires
            old(self).wf(),
        ensures
            (match result {
                Ok(chain) => {
                    &&& old(self).outcome(handshake, req) matches Ok(secret)
                    &&& final(self).follows(old(self), handshake, secret)
                    &&& old(self).recovery_level(handshake.sender, handshake.op)
                        <= final(self).depth()
                    &&& final(self).is_member()
                    &&& final(self).node(final(self).depth() as int, 0).secret() matches Some(root)
                    &&& root == path_secret(
                        secret,
                        (final(self).depth() - old(self).recovery_level(
                            handshake.sender,
                            handshake.op,
                        )) as nat,
                    )
                    &&& final(self).keyed_by(&chain, root)
                },
                Err(e) => old(self).outcome(handshake, req) == Err::<Seq<u8>, Error>(e)
                    && *final(self) == *old(self),
            }),
    {
        if handshake.prior_epoch != self.epoch || self.epoch == u32::MAX {
            return Err(Error::HandshakeDecodeError);
        }
        if !self.admits_op(handshake.sender, handshake.op) {
            return Err(Error::UnknownMember);
        }
        let target: u32 = handshake.op.roster_idx();
        let new_len: u32 = if target >= self.roster_len {
            target + 1
        } else {
            self.roster_len
        };
        let new_depth: usize = depth_for(new_len);
        if handshake.path_keys.len() != new_depth + 1 {
            return Err(Error::HandshakeDecodeError);
        }
        if self.my_roster_idx >= new_len || (handshake.op.is_remove() && target
            == self.my_roster_idx) {
            return Err(Error::UnknownMember);
        }
        let secret = match self.recover(handshake, req) {
            Ok(secret) => secret,
            Err(e) => return Err(e),
        };
        let from: usize = if handshake.sender == self.my_roster_idx {
            0
        } else {
            common_level_of(target, self.my_roster_idx)
        };
        proof {
            lemma_common_level(target as nat, self.my_roster_idx() as nat, new_depth as nat);
        }
        let secrets = climb(&secret, new_depth - from);
        let mut k: usize = from;
        while k <= new_depth
            invariant
                *self == *old(self),
                old(self).outcome(handshake, req) == if keys_match(
                    handshake,
                    secret@,
                    from as nat,
                ) {
                    Ok::<Seq<u8>, Error>(secret@)
                } else {
                    Err::<Seq<u8>, Error>(Error::HandshakeDecodeError)
                },
                from <= k <= new_depth + 1,
                new_depth <= MAX_DEPTH,
                handshake.path_keys@.len() == new_depth + 1,
                secrets@.len() == new_depth - from + 1,
                climbs_from(secrets@, secret@),
                forall|j: int|
                    from <= j < k ==> (#[trigger] handshake.path_keys@[j])@ == node_public(
                        path_secret(secret@, (j - from) as nat),
                    ) && node_private(path_secret(secret@, (j - from) as nat)).len() == 32,
            decreases new_depth + 1 - k,
        {
            let public_key = secrets[k - from].public_key();
            if !slice_eq(public_key.as_slice(), handshake.path_keys[k].as_slice()) {
                assert(!keys_match(handshake, secret@, from as nat)) by {
                    assert(handshake.path_keys@[k as int]@ != node_public(
                        path_secret(secret@, (k - from) as nat),
                    ));
                }
                return Err(Error::HandshakeDecodeError);
            }
            k += 1;
        }
        let remove = handshake.op.is_remove();
        let mut path: Vec<TreeNode> = Vec::new();
        let mut k: usize = 0;
        while k <= new_depth
            invariant
                k <= new_depth + 1,
                from <= new_depth <= MAX_DEPTH,
                remove == (handshake.op is Remove),
                handshake.path_keys@.len() == new_depth + 1,
                secrets@.len() == new_depth - from + 1,
                climbs_from(secrets@, secret@),
                path@.len() == k,
                forall|j: int|
                    0 <= j < k ==> GroupState::path_node_is(
                        #[trigger] path@[j],
                        handshake,
                        secret@,
                        from as nat,
                        j,
                    ),
            decreases new_depth + 1 - k,
        {
            if remove && k == 0 {
                path.push(TreeNode::Blank);
            } else if k >= from {
                path.push(
                    TreeNode::Filled {
                        public_key: handshake.path_keys[k],
                        secret: Some(secrets[k - from]),
                    },
                );
            } else {
                path.push(TreeNode::Filled { public_key: handshake.path_keys[k], secret: None });
            }
            k += 1;
        }
        let levels = self.rebuilt(new_depth, target, &path);
        let mut live: Vec<bool> = Vec::new();
        let mut i: u32 = 0;
        proof {
            assert(pow2((new_depth - 0) as nat) == pow2(new_depth as nat));
        }
        while i < new_len
            invariant
                i <= new_len <= MAX_ROSTER,
                new_len <= pow2(new_depth as nat),
                levels@.len() == new_depth + 1,
                levels@[0]@.len() == pow2(new_depth as nat),
                live@.len() == i,
                forall|j: int| 0 <= j < i ==> live@[j] == (levels@[0]@[j] is Filled),
            decreases new_len - i,
        {
            let filled = match levels[0][i as usize] {
                TreeNode::Filled { .. } => true,
                TreeNode::Blank => false,
            };
            live.push(filled);
            i += 1;
        }
        let root = secrets[new_depth - from];
        let chain = AppKeyChain::from_root_secret(&root, &live);
        let ghost before = *self;
        self.levels = levels;
        self.roster_len = new_len;
        self.epoch = self.epoch + 1;
        proof {
            assert(self.complete());
            assert(self.depth() == new_depth);
            assert forall|i: int| self.roster_len() <= i implies #[trigger] self.node(0, i)
                is Blank by {
                if i < pow2(new_depth as nat) {
                    assert(self.levels@[0]@[i] == before.node(0, i));
                }
            }
            assert forall|k: int, o: int|
                0 <= k <= self.depth() && 0 <= o < pow2((self.depth() - k) as nat) implies if o
                == ancestor(handshake.op.target() as nat, k as nat) {
                GroupState::path_node_is(
                    #[trigger] self.node(k, o),
                    handshake,
                    secret@,
                    before.recovery_level(handshake.sender, handshake.op),
                    k,
                )
            } else {
                self.node(k, o) == before.node(k, o)
            } by {
                assert(self.node(k, o) == self.levels@[k]@[o]);
            }
            assert(pow2(0) == 1);
            assert(ancestor(target as nat, new_depth as nat) == 0) by {
                lemma_ancestor_in_level(target as nat, new_depth as nat, new_depth as nat);
            }
            assert(self.node(new_depth as int, 0) == path@[new_depth as int]);
            assert forall|i: int| 0 <= i < self.roster_len() implies if self.live(i) {
                (#[trigger] chain.slot(i)).is_some() && chain.chain_key(i) == first_chain_key(
                    root@,
                    i as u32,
                ) && chain.generation(i) == 0
            } else {
                chain.slot(i).is_none()
            } by {
                assert(self.node(0, i) == self.levels@[0]@[i]);
            }
        }
        Ok(chain)
    }
}

/// Whoever recovers a path secret from a handshake derives the root secret
/// that the maker derives from its leaf secret: the root does not depend on
/// the level at which a member enters the path.
pub proof fn lemma_same_root(leaf_secret: Seq<u8>, from: nat, depth: nat)
    requires
        from <= depth,
    ensures
        path_secret(path_secret(leaf_secret, from), (depth - from) as nat) == path_secret(
            leaf_secret,
            depth,
        ),
{
    lemma_path_secret_add(leaf_secret, from, (depth - from) as nat);
}

/// The maker of a handshake and every member that the handshake holds a
/// segment for accept it, and the path secret that the member recovers is
/// the one on the maker's path at the level where the two paths meet. So
/// both derive the same root secret for the new epoch.
///
/// The member must hold the secret of its own leaf, and see the same roster
/// and the same leaf keys as the maker.
pub proof fn lemma_handshake_agreement(
    maker: &GroupState,
    member: &GroupState,
    maker_req: &PathSecretRequest,
    member_req: &PathSecretRequest,
    handshake: &Handshake,
    secret: Seq<u8>,
    leaf: Seq<u8>,
)
    requires
        maker.wf(),
        member.wf(),
        maker.epoch() < u32::MAX,
        maker.admits(maker.my_roster_idx(), handshake.op),
        maker_req.secret_at(maker.my_roster_idx(), (maker.epoch() + 1) as u32) == Some(secret),
        maker.makes(handshake.op, secret, handshake),
        member.epoch() == maker.epoch(),
        member.roster_len() == maker.roster_len(),
        forall|i: int| (#[trigger] member.node(0, i)).public() == maker.node(0, i).public(),
        maker.eligible(handshake.op, member.my_roster_idx() as int),
        member.node(0, member.my_roster_idx() as int).secret() == Some(leaf),
    ensures
        maker.outcome(handshake, maker_req) == Ok::<Seq<u8>, Error>(secret),
        member.outcome(handshake, member_req) == Ok::<Seq<u8>, Error>(
            path_secret(
                secret,
                common_level(handshake.op.target() as nat, member.my_roster_idx() as nat),
            ),
        ),
        common_level(handshake.op.target() as nat, member.my_roster_idx() as nat)
            <= maker.next_depth(handshake.op),
        path_secret(
            path_secret(
                secret,
                common_level(handshake.op.target() as nat, member.my_roster_idx() as nat),
            ),
            (maker.next_depth(handshake.op) - common_level(
                handshake.op.target() as nat,
                member.my_roster_idx() as nat,
            )) as nat,
        ) == path_secret(secret, maker.next_depth(handshake.op)),
{
    let op = handshake.op;
    let me = member.my_roster_idx();
    let target = op.target();
    let level = common_level(target as nat, me as nat);
    let depth = maker.next_depth(op);
    assert(member.node(0, me as int).consistent());
    assert forall|i: int| member.live(i) == maker.live(i) by {
        assert(member.node(0, i).public() == maker.node(0, i).public());
    }
    assert(member.admits(handshake.sender, op) == maker.admits(handshake.sender, op));
    lemma_tree_depth_bounds(maker.next_roster_len(op) as nat);
    lemma_common_level(target as nat, me as nat, depth);
    lemma_same_root(secret, level, depth);
    // The member finds its segment and opens it.
    let at = choose|i: int|
        0 <= i < handshake.segments@.len() && (#[trigger] handshake.segments@[i]).recipient
            == me as int;
    assert(maker.eligible(op, me as int));
    crate::handshake::lemma_first_segment(handshake.segments@, me);
    let first = first_segment(handshake.segments@, me).unwrap();
    let segment = handshake.segments@[first];
    assert(maker.segment_is(op, secret, segment));
    assert(segment.opened(node_private(leaf)) == Some(path_secret(secret, level)));
    // The public keys of the handshake follow from what it recovered.
    assert forall|k: int| level <= k < handshake.path_keys@.len() implies (
    #[trigger] handshake.path_keys@[k])@ == node_public(
        path_secret(path_secret(secret, level), (k - level) as nat),
    ) by {
        lemma_path_secret_add(secret, level, (k - level) as nat);
    }
}

/// Once the maker of a handshake and a member that it holds a segment for
/// have applied it, both hold the same root secret for the new epoch: the
/// maker's fresh leaf secret climbed to the root.
pub proof fn lemma_roots_agree(
    maker: &GroupState,
    member: &GroupState,
    maker_req: &PathSecretRequest,
    member_req: &PathSecretRequest,
    handshake: &Handshake,
    secret: Seq<u8>,
    leaf: Seq<u8>,
    maker_after: &GroupState,
    member_after: &GroupState,
)
    requires
        maker.wf(),
        member.wf(),
        maker.epoch() < u32::MAX,
        maker.admits(maker.my_roster_idx(), handshake.op),
        maker_req.secret_at(maker.my_roster_idx(), (maker.epoch() + 1) as u32) == Some(secret),
        maker.makes(handshake.op, secret, handshake),
        member.epoch() == maker.epoch(),
        member.roster_len() == maker.roster_len(),
        forall|i: int| (#[trigger] member.node(0, i)).public() == maker.node(0, i).public(),
        maker.eligible(handshake.op, member.my_roster_idx() as int),
        member.node(0, member.my_roster_idx() as int).secret() == Some(leaf),
        maker.outcome(handshake, maker_req) matches Ok(recovered) && maker_after.follows(
            maker,
            handshake,
            recovered,
        ),
        member.outcome(handshake, member_req) matches Ok(recovered) && member_after.follows(
            member,
            handshake,
            recovered,
        ),
    ensures
        maker_after.epoch() == member_after.epoch(),
        maker_after.depth() == member_after.depth(),
        maker_after.node(maker_after.depth() as int, 0).secret() == Some(
            path_secret(secret, maker_after.depth()),
        ),
        member_after.node(member_after.depth() as int, 0).secret() == Some(
            path_secret(secret, maker_after.depth()),
        ),
{
    lemma_handshake_agreement(maker, member, maker_req, member_req, handshake, secret, leaf);
    let op = handshake.op;
    let target = op.target() as nat;
    let depth = maker.next_depth(op);
    let level = common_level(target, member.my_roster_idx() as nat);
    assert forall|i: int| member.live(i) == maker.live(i) by {
        assert(member.node(0, i).public() == maker.node(0, i).public());
    }
    lemma_tree_depth_bounds(maker.next_roster_len(op) as nat);
    lemma_ancestor_in_level(target, depth, depth);
    assert(pow2(0) == 1);
    assert(depth >= 1 || !(op is Remove)) by {
        if op is Remove {
            assert(maker.roster_len() >= 2);
            assert(tree_depth(maker.roster_len() as nat) >= 1);
        }
    }
    assert(GroupState::path_node_is(
        maker_after.node(depth as int, 0),
        handshake,
        secret,
        0,
        depth as int,
    ));
    assert(GroupState::path_node_is(
        member_after.node(depth as int, 0),
        handshake,
        path_secret(secret, level),
        level,
        depth as int,
    ));
}

/// A member that a handshake removes cannot apply it: whatever the handshake
/// holds and whatever secrets the member has, the outcome is a refusal, so
/// the member derives no root secret for the new epoch.
pub proof fn lemma_removed_member_is_refused(
    state: &GroupState,
    handshake: &Handshake,
    req: &PathSecretRequest,
)
    requires
        handshake.op == Operation::Remove(state.my_roster_idx()),
    ensures
        state.outcome(handshake, req) is Err,
{
}

/// A handshake holds no segment for the member whose leaf it changes: what
/// is sealed in a removal is sealed for the others only.
pub proof fn lemma_no_segment_for_target(
    maker: &GroupState,
    handshake: &Handshake,
    secret: Seq<u8>,
)
    requires
        maker.makes(handshake.op, secret, handshake),
    ensures
        first_segment(handshake.segments@, handshake.op.target()).is_none(),
{
    crate::handshake::lemma_first_segment(handshake.segments@, handshake.op.target());
    if first_segment(handshake.segments@, handshake.op.target()).is_some() {
        let at = first_segment(handshake.segments@, handshake.op.target()).unwrap();
        assert(maker.segment_is(handshake.op, secret, handshake.segments@[at]));
    }
}

/// The outcome of a handshake depends on what the handshake holds alone.
pub proof fn lemma_outcome_of_equal_handshakes(
    state: &GroupState,
    a: &Handshake,
    b: &Handshake,
    req: &PathSecretRequest,
)
    requires
        a.prior_epoch == b.prior_epoch,
        a.sender == b.sender,
        a.op == b.op,
        a.path_keys@ == b.path_keys@,
        a.segments@ == b.segments@,
    ensures
        state.outcome(a, req) == state.outcome(b, req),
{
    assert(state.recovered(a, req) == state.recovered(b, req));
    assert forall|secret: Seq<u8>, from: nat|
        keys_match(a, secret, from) == keys_match(b, secret, from) by {}
}

/// A handshake that a member of a well-formed group makes can be encoded.
pub proof fn lemma_made_handshake_fits(group: &GroupState, handshake: &Handshake)
    requires
        group.wf(),
        exists|op: Operation, secret: Seq<u8>|
            group.admits(group.my_roster_idx(), op) && #[trigger] group.makes(
                op,
                secret,
                handshake,
            ),
    ensures
        handshake.fits(),
{
    let (op, secret) = choose|op: Operation, secret: Seq<u8>|
        group.admits(group.my_roster_idx(), op) && #[trigger] group.makes(op, secret, handshake);
    crate::tree_math::lemma_tree_depth_monotonic(
        group.next_roster_len(op) as nat,
        MAX_ROSTER as nat,
    );
    lemma_pow2_max();
    crate::tree_math::lemma_tree_depth_is(MAX_ROSTER as nat, MAX_DEPTH as nat);
    // The segments are for different members of the roster.
    let recipients = handshake.segments@.map_values(|segment: Segment| segment.recipient as int);
    assert forall|i: int, j: int|
        0 <= i < j < recipients.len() implies recipients[i] < recipients[j] by {
        assert(handshake.segments@[i].recipient < handshake.segments@[j].recipient);
    }
    assert forall|i: int| 0 <= i < recipients.len() implies 0 <= #[trigger] recipients[i]
        < MAX_ROSTER by {
        assert(group.segment_is(op, secret, handshake.segments@[i]));
    }
    lemma_increasing_is_short(recipients, MAX_ROSTER as int);
}

/// A strictly increasing sequence of numbers below `bound` has at most
/// `bound` members.
pub proof fn lemma_increasing_is_short(numbers: Seq<int>, bound: int)
    requires
        0 <= bound,
        forall|i: int, j: int| 0 <= i < j < numbers.len() ==> numbers[i] < numbers[j],
        forall|i: int| 0 <= i < numbers.len() ==> 0 <= #[trigger] numbers[i] < bound,
    ensures
        numbers.len() <= bound,
    decreases numbers.len(),
{
    if numbers.len() > 0 {
        let init = numbers.drop_last();
        let last = numbers.last();
        assert forall|i: int| 0 <= i < init.len() implies 0 <= #[trigger] init[i] < last by {
            assert(init[i] == numbers[i]);
        }
        assert forall|i: int, j: int| 0 <= i < j < init.len() implies init[i] < init[j] by {
            assert(init[i] == numbers[i] && init[j] == numbers[j]);
        }
        lemma_increasing_is_short(init, last);
    }
}

/// The outcome of a handshake depends on what the state holds alone.
pub proof fn lemma_outcome_of_equal_states(
    a: &GroupState,
    b: &GroupState,
    handshake: &Handshake,
    req: &PathSecretRequest,
)
    requires
        a.my_roster_idx() == b.my_roster_idx(),
        a.roster_len() == b.roster_len(),
        a.epoch() == b.epoch(),
        forall|k: int, o: int| #[trigger] a.node(k, o) == b.node(k, o),
    ensures
        a.outcome(handshake, req) == b.outcome(handshake, req),
{
    assert forall|i: int| a.live(i) == b.live(i) by {
        assert(a.node(0, i) == b.node(0, i));
    }
    assert(a.node(0, a.my_roster_idx() as int) == b.node(0, b.my_roster_idx() as int));
    assert(a.admits(handshake.sender, handshake.op) == b.admits(handshake.sender, handshake.op));
    assert(a.recovered(handshake, req) == b.recovered(handshake, req));
}

/// Whether a state follows another depends on what that other state holds
/// alone.
pub proof fn lemma_follows_of_equal_states(
    after: &GroupState,
    a: &GroupState,
    b: &GroupState,
    handshake: &Handshake,
    secret: Seq<u8>,
)
    requires
        a.my_roster_idx() == b.my_roster_idx(),
        a.roster_len() == b.roster_len(),
        a.epoch() == b.epoch(),
        forall|k: int, o: int| #[trigger] a.node(k, o) == b.node(k, o),
        after.follows(a, handshake, secret),
    ensures
        after.follows(b, handshake, secret),
{
    assert forall|k: int, o: int|
        0 <= k <= after.depth() && 0 <= o < pow2((after.depth() - k) as nat) implies if o
        == ancestor(handshake.op.target() as nat, k as nat) {
        GroupState::path_node_is(
            #[trigger] after.node(k, o),
            handshake,
            secret,
            b.recovery_level(handshake.sender, handshake.op),
            k,
        )
    } else {
        after.node(k, o) == b.node(k, o)
    } by {
        assert(a.node(k, o) == b.node(k, o));
    }
}

/// Whether a state follows another depends on what the handshake holds
/// alone.
pub proof fn lemma_follows_of_equal_handshakes(
    after: &GroupState,
    before: &GroupState,
    a: &Handshake,
    b: &Handshake,
    secret: Seq<u8>,
)
    requires
        a.prior_epoch == b.prior_epoch,
        a.sender == b.sender,
        a.op == b.op,
        a.path_keys@ == b.path_keys@,
        a.segments@ == b.segments@,
        after.follows(before, a, secret),
    ensures
        after.follows(before, b, secret),
{
    assert forall|k: int, o: int|
        0 <= k <= after.depth() && 0 <= o < pow2((after.depth() - k) as nat) implies if o
        == ancestor(b.op.target() as nat, k as nat) {
        GroupState::path_node_is(
            #[trigger] after.node(k, o),
            b,
            secret,
            before.recovery_level(b.sender, b.op),
            k,
        )
    } else {
        after.node(k, o) == before.node(k, o)
    } by {
        if o == ancestor(a.op.target() as nat, k as nat) {
            assert(GroupState::path_node_is(
                after.node(k, o),
                a,
                secret,
                before.recovery_level(a.sender, a.op),
                k,
            ));
        }
    }
}

} // verus!
