//! Helpers for setting up groups: filling a store of path secrets, taking
//! another member's place in a group state, and running one handshake
//! through two members.

use crate::application::AppKeyChain;
use crate::error::Error;
use crate::group_state::GroupState;
use crate::handshake::Handshake;
use crate::secrets::node_public;
use crate::secrets::path_secret;
use crate::secrets::PathSecretKVS;
use crate::secrets::PathSecretRequest;
use vstd::prelude::*;

verus! {

/// Fills `kvs` with a fresh random secret for every roster index below
/// `until_roster_idx` at every epoch below `until_epoch`. What the store
/// holds for other members and epochs stays.
pub fn init_path_secret_kvs(kvs: &mut PathSecretKVS, until_roster_idx: u32, until_epoch: u32)
    ensures
        forall|r: u32, e: u32|
            r < until_roster_idx && e < until_epoch ==> (#[trigger] final(kvs).secret_at(
                r,
                e,
            )).is_some(),
        forall|r: u32, e: u32|
            !(r < until_roster_idx && e < until_epoch) ==> (#[trigger] final(kvs).secret_at(r, e))
                == old(kvs).secret_at(r, e),
{
    let mut r_i: u32 = 0;
    while r_i < until_roster_idx
        invariant
            r_i <= until_roster_idx,
            forall|r: u32, e: u32|
                r < r_i && e < until_epoch ==> (#[trigger] kvs.secret_at(r, e)).is_some(),
            forall|r: u32, e: u32|
                !(r < r_i && e < until_epoch) ==> (#[trigger] kvs.secret_at(r, e))
                    == old(kvs).secret_at(r, e),
        decreases until_roster_idx - r_i,
    {
        let mut e_i: u32 = 0;
        while e_i < until_epoch
            invariant
                r_i < until_roster_idx,
                e_i <= until_epoch,
                forall|r: u32, e: u32|
                    (r < r_i && e < until_epoch) || (r == r_i && e < e_i) ==> (
                    #[trigger] kvs.secret_at(r, e)).is_some(),
                forall|r: u32, e: u32|
                    !((r < r_i && e < until_epoch) || (r == r_i && e < e_i)) ==> (
                    #[trigger] kvs.secret_at(r, e)) == old(kvs).secret_at(r, e),
            decreases until_epoch - e_i,
        {
            kvs.insert_random_path_secret(r_i, e_i);
            e_i += 1;
        }
        r_i += 1;
    }
}

/// The group state as the member at `new_idx` would hold it, with the
/// secrets of `group_state`.
pub fn change_group_state_idx(group_state: &GroupState, new_idx: u32) -> (new_group_state:
    GroupState)
    requires
        group_state.wf(),
        new_idx <= group_state.roster_len(),
    ensures
        new_group_state.wf(),
        new_group_state.my_roster_idx() == new_idx,
        new_group_state.roster_len() == group_state.roster_len(),
        new_group_state.epoch() == group_state.epoch(),
        new_group_state.depth() == group_state.depth(),
        forall|k: int, o: int| #[trigger] new_group_state.node(k, o) == group_state.node(k, o),
{
    group_state.with_roster_idx(new_idx)
}

/// Runs one handshake through two members: `my_group` makes it, then both
/// apply it. Returns the key chains of the new epoch, the maker's first.
/// Where the other member holds the same group as the maker and the secret
/// of its own leaf, both then hold the same root secret and the same chain
/// keys. Where the handshake cannot be made, or either member refuses it,
/// neither state changes.
pub fn do_handshake(
    my_group: &mut GroupState,
    others_group: &mut GroupState,
    req: &PathSecretRequest,
) -> (result: Result<(AppKeyChain, AppKeyChain), Error>)
    requires
        old(my_group).wf(),
        old(others_group).wf(),
    ensures
        (match result {
            Ok((my_keychain, others_keychain)) => {
                &&& old(my_group).epoch() < u32::MAX
                &&& old(my_group).admits(
                    old(my_group).my_roster_idx(),
                    old(my_group).own_operation(),
                )
                &&& req.secret_at(
                    old(my_group).my_roster_idx(),
                    (old(my_group).epoch() + 1) as u32,
                ) matches Some(secret)
                &&& exists|handshake: Handshake|
                    {
                        &&& old(my_group).makes(old(my_group).own_operation(), secret, &handshake)
                        &&& #[trigger] final(my_group).applied(old(my_group), &handshake, req)
                        &&& final(others_group).applied(old(others_group), &handshake, req)
                    }
                &&& final(my_group).epoch() == old(my_group).epoch() + 1
                &&& final(others_group).epoch() == old(others_group).epoch() + 1
                &&& final(my_group).wf()
                &&& final(others_group).wf()
                &&& final(my_group).is_member()
                &&& final(others_group).is_member()
                &&& final(my_group).held_root() matches Some(my_root)
                &&& final(my_group).keyed_by(&my_keychain, my_root)
                &&& final(others_group).held_root() matches Some(others_root)
                &&& final(others_group).keyed_by(&others_keychain, others_root)
                &&& node_public(my_root) == node_public(others_root)
                &&& old(my_group).seen_by(old(others_group)) ==> {
                    &&& my_root == others_root
                    &&& my_root == path_secret(secret, final(my_group).depth())
                    &&& final(others_group).roster_len() == final(my_group).roster_len()
                    &&& final(others_group).depth() == final(my_group).depth()
                    &&& forall|r: int|
                        0 <= r < final(my_group).roster_len() && final(my_group).live(r)
                            && final(others_group).live(r) ==> #[trigger] my_keychain.chain_key(r)
                            == others_keychain.chain_key(r)
                }
            },
            Err(e) => {
                &&& *final(my_group) == *old(my_group)
                &&& *final(others_group) == *old(others_group)
                &&& old(my_group).refuses_to_make(req, e) || exists|handshake: Handshake|
                    old(my_group).makes(
                        old(my_group).own_operation(),
                        req.secret_at(
                            old(my_group).my_roster_idx(),
                            (old(my_group).epoch() + 1) as u32,
                        ).unwrap(),
                        &handshake,
                    ) && (#[trigger] old(others_group).outcome(&handshake, req) == Err::<
                        Seq<u8>,
                        Error,
                    >(e) || old(my_group).outcome(&handshake, req) == Err::<Seq<u8>, Error>(e))
            },
        }),
{
    let handshake = match my_group.create_handshake(req) {
        Ok(handshake) => handshake,
        Err(e) => return Err(e),
    };
    let mut others_next = others_group.with_roster_idx(others_group.my_roster_idx());
    let ghost others_copy = others_next;
    proof {
        crate::group_state::lemma_outcome_of_equal_states(
            &others_next,
            &*old(others_group),
            &handshake,
            req,
        );
    }
    let others_keychain = match others_next.process_handshake(&handshake, req) {
        Ok(keychain) => keychain,
        Err(e) => {
            assert(old(others_group).outcome(&handshake, req) == Err::<Seq<u8>, Error>(e));
            return Err(e);
        },
    };
    let my_keychain = match my_group.process_handshake(&handshake, req) {
        Ok(keychain) => keychain,
        Err(e) => {
            assert(old(my_group).outcome(&handshake, req) == Err::<Seq<u8>, Error>(e));
            return Err(e);
        },
    };
    proof {
        let top = handshake.path_keys@.len() - 1;
        let secret = req.secret_at(
            old(my_group).my_roster_idx(),
            (old(my_group).epoch() + 1) as u32,
        ).unwrap();
        let recovered = old(others_group).outcome(&handshake, req)->Ok_0;
        let own = old(others_group).my_roster_idx() as int;
        assert(handshake.path_keys@[top]@ == node_public(my_group.held_root().unwrap()));
        assert(handshake.path_keys@[top]@ == node_public(others_next.held_root().unwrap()));
        crate::group_state::lemma_follows_of_equal_states(
            &others_next,
            &others_copy,
            &*old(others_group),
            &handshake,
            recovered,
        );
        assert(my_group.applied(old(my_group), &handshake, req));
        assert(others_next.applied(old(others_group), &handshake, req));
        if old(my_group).seen_by(old(others_group)) {
            crate::group_state::lemma_roots_agree(
                old(my_group),
                old(others_group),
                req,
                req,
                &handshake,
                secret,
                old(others_group).node(0, own).secret().unwrap(),
                &*my_group,
                &others_next,
            );
        }
    }
    *others_group = others_next;
    Ok((my_keychain, others_keychain))
}

} // verus!
