//! Participant identity: a replica is addressed by (tenant, name, node).

use vstd::prelude::*;

verus! {

/// A named location in the cluster, with its network-address-like fields.
#[derive(Clone, Debug, PartialEq)]
pub struct Member {
    pub name: String,
    pub cluster_host: String,
    pub vr_host: String,
    pub vr_api_host: String,
}

/// Mathematical view of a `Member`: each field as a sequence of characters.
#[verifier::ext_equal]
pub struct MemberView {
    pub name: Seq<char>,
    pub cluster_host: Seq<char>,
    pub vr_host: Seq<char>,
    pub vr_api_host: Seq<char>,
}

impl View for Member {
    type V = MemberView;

    open spec fn view(&self) -> MemberView {
        MemberView {
            name: self.name@,
            cluster_host: self.cluster_host@,
            vr_host: self.vr_host@,
            vr_api_host: self.vr_api_host@,
        }
    }
}

/// One consensus participant's identity.  The tenant is an opaque
/// 128-bit isolation-domain identifier.
#[derive(Clone, Debug, PartialEq)]
pub struct Replica {
    pub tenant: u128,
    pub name: String,
    pub node: Member,
}

/// Mathematical view of a `Replica`.
#[verifier::ext_equal]
pub struct ReplicaView {
    pub tenant: u128,
    pub name: Seq<char>,
    pub node: MemberView,
}

impl View for Replica {
    type V = ReplicaView;

    open spec fn view(&self) -> ReplicaView {
        ReplicaView { tenant: self.tenant, name: self.name@, node: self.node@ }
    }
}

impl Member {
    /// An exact copy of this member.
    pub fn clone_member(&self) -> (r: Member)
        ensures
            r@ == self@,
    {
        Member {
            name: self.name.clone(),
            cluster_host: self.cluster_host.clone(),
            vr_host: self.vr_host.clone(),
            vr_api_host: self.vr_api_host.clone(),
        }
    }
}

impl Replica {
    /// An exact copy of this identity.
    pub fn clone_replica(&self) -> (r: Replica)
        ensures
            r@ == self@,
    {
        Replica { tenant: self.tenant, name: self.name.clone(), node: self.node.clone_member() }
    }
}

/// Decides equality of two members, exactly as their views compare.
pub fn member_eq(a: &Member, b: &Member) -> (r: bool)
    ensures
        r == (a@ == b@),
{
    let r = a.name == b.name && a.cluster_host == b.cluster_host && a.vr_host == b.vr_host
        && a.vr_api_host == b.vr_api_host;
    proof {
        if r {
            assert(a@ == b@);
        }
    }
    r
}

/// Decides equality of two replica identities, exactly as their views compare.
pub fn replica_eq(a: &Replica, b: &Replica) -> (r: bool)
    ensures
        r == (a@ == b@),
{
    let r = a.tenant == b.tenant && a.name == b.name && member_eq(&a.node, &b.node);
    proof {
        if r {
            assert(a@ == b@);
        }
    }
    r
}

/// True when position `i` of `s` starts the `::` separator.
pub open spec fn is_sep_at(s: Seq<char>, i: int) -> bool {
    0 <= i && i + 2 <= s.len() && s[i] == ':' && s[i + 1] == ':'
}

/// A participant string is well formed when it holds a first `::`
/// separator and no further separator after it: `<name>::<node-name>`.
pub open spec fn valid_ident(s: Seq<char>) -> bool {
    exists|i: int|
        {
            &&& #[trigger] is_sep_at(s, i)
            &&& forall|j: int| 0 <= j < i ==> !is_sep_at(s, j)
            &&& forall|j: int| i + 2 <= j ==> !is_sep_at(s, j)
        }
}

/// The position of the first separator of a well-formed participant string.
pub open spec fn sep_pos(s: Seq<char>) -> int {
    choose|i: int|
        {
            &&& #[trigger] is_sep_at(s, i)
            &&& forall|j: int| 0 <= j < i ==> !is_sep_at(s, j)
            &&& forall|j: int| i + 2 <= j ==> !is_sep_at(s, j)
        }
}

/// The nil tenant identifier used at the interactive boundary.
pub const NIL_TENANT: u128 = 0;

/// The identity a well-formed participant string denotes: the nil
/// tenant, the text before the separator as the replica name, the text
/// after it as the node name, and empty network-address fields.
pub open spec fn parsed_ident(s: Seq<char>) -> ReplicaView {
    ReplicaView {
        tenant: NIL_TENANT,
        name: s.take(sep_pos(s)),
        node: MemberView {
            name: s.skip(sep_pos(s) + 2),
            cluster_host: Seq::empty(),
            vr_host: Seq::empty(),
            vr_api_host: Seq::empty(),
        },
    }
}

/// Parses `<name>::<node-name>` into a replica identity under the nil
/// tenant, with empty network-address fields; rejects any string whose
/// separator count differs from one.
pub fn parse_replica(replica_str: &str) -> (r: Option<Replica>)
    ensures
        r is Some <==> valid_ident(replica_str@),
        r matches Some(rep) ==> rep@ == parsed_ident(replica_str@),
{
    let n = replica_str.unicode_len();
    let first = find_sep_from(replica_str, 0, n);
    match first {
        None => {
            proof {
                assert(!valid_ident(replica_str@));
            }
            None
        },
        Some(i) => {
            match find_sep_from(replica_str, i + 2, n) {
                Some(j) => {
                    proof {
                        lemma_no_valid_ident_with_second_sep(replica_str@, i as int, j as int);
                    }
                    None
                },
                None => {
                    proof {
                        lemma_sep_pos_unique(replica_str@, i as int);
                    }
                    let name = replica_str.substring_char(0, i).to_owned();
                    let node_name = replica_str.substring_char(i + 2, n).to_owned();
                    let rep = Replica {
                        tenant: NIL_TENANT,
                        name,
                        node: Member {
                            name: node_name,
                            cluster_host: String::new(),
                            vr_host: String::new(),
                            vr_api_host: String::new(),
                        },
                    };
                    proof {
                        assert(replica_str@.subrange(0, i as int) =~= replica_str@.take(i as int));
                        assert(replica_str@.subrange(i + 2, n as int) =~= replica_str@.skip(i + 2));
                        assert(rep@ =~= parsed_ident(replica_str@));
                    }
                    Some(rep)
                },
            }
        },
    }
}

/// Finds the first separator of `s` at or after `start`, if any.
fn find_sep_from(s: &str, start: usize, n: usize) -> (r: Option<usize>)
    requires
        n == s@.len(),
        start <= n,
    ensures
        r matches Some(i) ==> {
            &&& start <= i
            &&& is_sep_at(s@, i as int)
            &&& forall|k: int| start <= k < i ==> !is_sep_at(s@, k)
        },
        r is None ==> forall|k: int| start <= k ==> !is_sep_at(s@, k),
{
    let mut i: usize = start;
    while i < n
        invariant
            n == s@.len(),
            start <= i <= n,
            forall|k: int| start <= k < i ==> !is_sep_at(s@, k),
        decreases n - i,
    {
        if i + 1 < n && s.get_char(i) == ':' && s.get_char(i + 1) == ':' {
            return Some(i);
        }
        proof {
            assert(!is_sep_at(s@, i as int));
        }
        i = i + 1;
    }
    proof {
        assert(forall|k: int| is_sep_at(s@, k) ==> 0 <= k && k < n);
    }
    None
}

/// A first separator at `i` followed by another separator at `j` past it
/// means the string is not a well-formed participant string.
proof fn lemma_no_valid_ident_with_second_sep(s: Seq<char>, i: int, j: int)
    requires
        is_sep_at(s, i),
        forall|k: int| 0 <= k < i ==> !is_sep_at(s, k),
        i + 2 <= j,
        is_sep_at(s, j),
    ensures
        !valid_ident(s),
{
    if valid_ident(s) {
        let w = choose|w: int|
            {
                &&& #[trigger] is_sep_at(s, w)
                &&& forall|k: int| 0 <= k < w ==> !is_sep_at(s, k)
                &&& forall|k: int| w + 2 <= k ==> !is_sep_at(s, k)
            };
        assert(w == i);
        assert(!is_sep_at(s, j));
    }
}

/// On a well-formed participant string, a first separator at `i` with no
/// separator from `i + 2` on pins `sep_pos` to `i`.
proof fn lemma_sep_pos_unique(s: Seq<char>, i: int)
    requires
        is_sep_at(s, i),
        forall|k: int| 0 <= k < i ==> !is_sep_at(s, k),
        forall|k: int| i + 2 <= k ==> !is_sep_at(s, k),
    ensures
        valid_ident(s),
        sep_pos(s) == i,
{
    assert(valid_ident(s));
    let w = sep_pos(s);
    assert(is_sep_at(s, w) && (forall|k: int| 0 <= k < w ==> !is_sep_at(s, k)) && (forall|k: int|
        w + 2 <= k ==> !is_sep_at(s, k)));
    if w < i {
        assert(!is_sep_at(s, w));
    }
    if i < w {
        assert(!is_sep_at(s, i));
    }
}

} // verus!
