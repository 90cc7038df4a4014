use vstd::prelude::*;

use crate::prefix::{BlockError, IpPrefix, V4Prefix, V6Prefix};

verus! {

/// What one feed entry resolves to: its IPv4 prefix when it has one, else its
/// IPv6 prefix, else `MissingPrefix`.
pub open spec fn resolve_entry(v4: Option<V4Prefix>, v6: Option<V6Prefix>) -> Result<
    IpPrefix,
    BlockError,
> {
    match v4 {
        Some(p) => Ok(IpPrefix::V4(p)),
        None => match v6 {
            Some(q) => Ok(IpPrefix::V6(q)),
            None => Err(BlockError::MissingPrefix),
        },
    }
}

/// The prefixes of a sequence of resolved entries, in entry order, or the error of
/// the first entry that did not resolve.
pub open spec fn normalize(rs: Seq<Result<IpPrefix, BlockError>>) -> Result<
    Seq<IpPrefix>,
    BlockError,
>
    decreases rs.len(),
{
    if rs.len() == 0 {
        Ok(Seq::empty())
    } else {
        match normalize(rs.drop_last()) {
            Err(e) => Err(e),
            Ok(v) => match rs.last() {
                Ok(p) => Ok(v.push(p)),
                Err(e) => Err(e),
            },
        }
    }
}

fn resolve(v4: &Option<V4Prefix>, v6: &Option<V6Prefix>) -> (r: Result<IpPrefix, BlockError>)
    ensures
        r == resolve_entry(*v4, *v6),
{
    match v4 {
        Some(p) => Ok(IpPrefix::V4(*p)),
        None => match v6 {
            Some(q) => Ok(IpPrefix::V6(*q)),
            None => Err(BlockError::MissingPrefix),
        },
    }
}

/// A feed document that can be reduced to a list of prefixes.
pub trait Range: Sized {
    /// What each entry of the document resolves to, in entry order.
    spec fn entry_results(&self) -> Seq<Result<IpPrefix, BlockError>>;

    /// The number of entries in the document.
    fn prefix_count(&self) -> (r: usize)
        ensures
            r == self.entry_results().len(),
    ;

    /// One prefix per entry, in entry order; the first entry that has no prefix
    /// fails the whole document.
    fn prefixes(self) -> (r: Result<Vec<IpPrefix>, BlockError>)
        ensures
            match r {
                Ok(v) => normalize(self.entry_results()) == Ok::<Seq<IpPrefix>, BlockError>(v@),
                Err(e) => normalize(self.entry_results()) == Err::<Seq<IpPrefix>, BlockError>(e),
            },
    ;
}

/// One entry of the first provider's feed.
#[derive(Clone, Debug)]
pub struct AmazonIp {
    pub ip_prefix: Option<V4Prefix>,
    pub ipv6_prefix: Option<V6Prefix>,
    pub region: String,
    pub service: String,
    pub network_border_group: String,
}

impl AmazonIp {
    pub open spec fn result(&self) -> Result<IpPrefix, BlockError> {
        resolve_entry(self.ip_prefix, self.ipv6_prefix)
    }

    /// The entry's IPv4 prefix if it has one, else its IPv6 prefix.
    pub fn try_to_prefix(self) -> (r: Result<IpPrefix, BlockError>)
        ensures
            r == self.result(),
    {
        resolve(&self.ip_prefix, &self.ipv6_prefix)
    }
}

/// The first provider's feed document.
#[derive(Clone, Debug)]
pub struct AWSRange {
    pub sync_token: String,
    pub create_date: String,
    pub prefixes: Vec<AmazonIp>,
}

impl Range for AWSRange {
    open spec fn entry_results(&self) -> Seq<Result<IpPrefix, BlockError>> {
        self.prefixes@.map_values(|e: AmazonIp| e.result())
    }

    fn prefix_count(&self) -> (r: usize) {
        self.prefixes.len()
    }

    fn prefixes(self) -> (r: Result<Vec<IpPrefix>, BlockError>) {
        let ghost rs = self.entry_results();
        let mut out: Vec<IpPrefix> = Vec::with_capacity(self.prefixes.len());
        let mut i: usize = 0;
        while i < self.prefixes.len()
            invariant
                i <= self.prefixes.len(),
                rs == self.entry_results(),
                normalize(rs.subrange(0, i as int)) == Ok::<Seq<IpPrefix>, BlockError>(out@),
            decreases self.prefixes.len() - i,
        {
            let entry = &self.prefixes[i];
            let r = resolve(&entry.ip_prefix, &entry.ipv6_prefix);
            proof {
                assert(rs.subrange(0, i + 1).drop_last() =~= rs.subrange(0, i as int));
            }
            match r {
                Ok(p) => {
                    out.push(p);
                },
                Err(e) => {
                    proof {
                        lemma_normalize_extend_err(rs, (i + 1) as int);
                    }
                    return Err(e);
                },
            }
            i = i + 1;
        }
        assert(rs.subrange(0, i as int) =~= rs);
        Ok(out)
    }
}

/// One entry of the second provider's feed.
#[derive(Clone, Debug)]
pub struct GoogleIp {
    pub ipv4_prefix: Option<V4Prefix>,
    pub ipv6_prefix: Option<V6Prefix>,
    pub service: Option<String>,
    pub scope: Option<String>,
}

impl GoogleIp {
    pub open spec fn result(&self) -> Result<IpPrefix, BlockError> {
        resolve_entry(self.ipv4_prefix, self.ipv6_prefix)
    }

    /// The entry's IPv4 prefix if it has one, else its IPv6 prefix.
    pub fn try_to_prefix(self) -> (r: Result<IpPrefix, BlockError>)
        ensures
            r == self.result(),
    {
        resolve(&self.ipv4_prefix, &self.ipv6_prefix)
    }
}

/// The second provider's feed document.
#[derive(Clone, Debug)]
pub struct GoogleRange {
    pub sync_token: String,
    pub creation_time: String,
    pub prefixes: Vec<GoogleIp>,
}

impl Range for GoogleRange {
    open spec fn entry_results(&self) -> Seq<Result<IpPrefix, BlockError>> {
        self.prefixes@.map_values(|e: GoogleIp| e.result())
    }

    fn prefix_count(&self) -> (r: usize) {
        self.prefixes.len()
    }

    fn prefixes(self) -> (r: Result<Vec<IpPrefix>, BlockError>) {
        let ghost rs = self.entry_results();
        let mut out: Vec<IpPrefix> = Vec::with_capacity(self.prefixes.len());
        let mut i: usize = 0;
        while i < self.prefixes.len()
            invariant
                i <= self.prefixes.len(),
                rs == self.entry_results(),
                normalize(rs.subrange(0, i as int)) == Ok::<Seq<IpPrefix>, BlockError>(out@),
            decreases self.prefixes.len() - i,
        {
            let entry = &self.prefixes[i];
            let r = resolve(&entry.ipv4_prefix, &entry.ipv6_prefix);
            proof {
                assert(rs.subrange(0, i + 1).drop_last() =~= rs.subrange(0, i as int));
            }
            match r {
                Ok(p) => {
                    out.push(p);
                },
                Err(e) => {
                    proof {
                        lemma_normalize_extend_err(rs, (i + 1) as int);
                    }
                    return Err(e);
                },
            }
            i = i + 1;
        }
        assert(rs.subrange(0, i as int) =~= rs);
        Ok(out)
    }
}

/// Once a prefix of the entries fails, the whole sequence fails with the same error.
proof fn lemma_normalize_extend_err(rs: Seq<Result<IpPrefix, BlockError>>, i: int)
    requires
        0 <= i <= rs.len(),
        normalize(rs.subrange(0, i)) is Err,
    ensures
        normalize(rs) == normalize(rs.subrange(0, i)),
    decreases rs.len() - i,
{
    if i < rs.len() {
        assert(rs.subrange(0, i + 1).drop_last() =~= rs.subrange(0, i));
        lemma_normalize_extend_err(rs, i + 1);
    } else {
        assert(rs.subrange(0, i) =~= rs);
    }
}

/// The prefixes to be enforced, and whether the resulting rules are to be saved.
#[derive(Clone, Debug)]
pub struct Blocker {
    pub ips: Vec<IpPrefix>,
    pub save: bool,
}

impl Blocker {
    pub fn new(ips: Vec<IpPrefix>, save: bool) -> (r: Self)
        ensures
            r.ips@ == ips@,
            r.save == save,
    {
        Blocker { ips, save }
    }
}

} // verus!

verus! {

/// When every entry resolves, normalization yields one prefix per entry, each
/// entry's own prefix, in entry order.
pub proof fn lemma_normalize_keeps_order(rs: Seq<Result<IpPrefix, BlockError>>)
    requires
        forall|i: int| 0 <= i < rs.len() ==> (#[trigger] rs[i]) is Ok,
    ensures
        normalize(rs) is Ok,
        normalize(rs)->Ok_0.len() == rs.len(),
        forall|i: int|
            0 <= i < rs.len() ==> Ok::<IpPrefix, BlockError>(#[trigger] normalize(rs)->Ok_0[i])
                == rs[i],
    decreases rs.len(),
{
    if rs.len() > 0 {
        let init = rs.drop_last();
        assert forall|i: int| 0 <= i < init.len() implies (#[trigger] init[i]) is Ok by {
            assert(init[i] == rs[i]);
        }
        lemma_normalize_keeps_order(init);
        assert(rs[rs.len() - 1] is Ok);
        let v = normalize(init)->Ok_0;
        assert forall|i: int| 0 <= i < rs.len() implies Ok::<IpPrefix, BlockError>(
            #[trigger] normalize(rs)->Ok_0[i],
        ) == rs[i] by {
            if i < init.len() {
                assert(normalize(rs)->Ok_0[i] == v[i]);
                assert(init[i] == rs[i]);
            }
        }
    }
}

/// Normalization stops at the first entry that does not resolve: the result is
/// that entry's error, whatever the later entries hold.
pub proof fn lemma_normalize_fail_fast(rs: Seq<Result<IpPrefix, BlockError>>, i: int)
    requires
        0 <= i < rs.len(),
        forall|j: int| 0 <= j < i ==> (#[trigger] rs[j]) is Ok,
        rs[i] is Err,
    ensures
        normalize(rs) == Err::<Seq<IpPrefix>, BlockError>(rs[i]->Err_0),
{
    let pre = rs.subrange(0, i);
    assert forall|j: int| 0 <= j < pre.len() implies (#[trigger] pre[j]) is Ok by {
        assert(pre[j] == rs[j]);
    }
    lemma_normalize_keeps_order(pre);
    assert(rs.subrange(0, i + 1).drop_last() =~= pre);
    lemma_normalize_extend_err(rs, i + 1);
}

/// A normalization that fails reports the error of one of the entries.
proof fn lemma_normalize_error_from_entry(rs: Seq<Result<IpPrefix, BlockError>>)
    requires
        normalize(rs) is Err,
    ensures
        exists|i: int|
            0 <= i < rs.len() && #[trigger] rs[i] == Err::<IpPrefix, BlockError>(
                normalize(rs)->Err_0,
            ),
    decreases rs.len(),
{
    let init = rs.drop_last();
    if normalize(init) is Err {
        lemma_normalize_error_from_entry(init);
        let i = choose|i: int|
            0 <= i < init.len() && #[trigger] init[i] == Err::<IpPrefix, BlockError>(
                normalize(init)->Err_0,
            );
        assert(rs[i] == init[i]);
    } else {
        assert(rs[rs.len() - 1] == rs.last());
    }
}

/// A first-provider document with an entry that has neither prefix fails to
/// normalize, with `MissingPrefix`.
pub proof fn lemma_aws_missing_prefix(doc: AWSRange, i: int)
    requires
        0 <= i < doc.prefixes@.len(),
        doc.prefixes@[i].ip_prefix is None,
        doc.prefixes@[i].ipv6_prefix is None,
    ensures
        normalize(doc.entry_results()) == Err::<Seq<IpPrefix>, BlockError>(
            BlockError::MissingPrefix,
        ),
{
    let rs = doc.entry_results();
    assert(rs[i] is Err);
    if normalize(rs) is Ok {
        let j = choose|j: int| 0 <= j < rs.len() && (#[trigger] rs[j]) is Err;
        lemma_normalize_ok_entries(rs, j);
    }
    lemma_normalize_error_from_entry(rs);
}

/// A second-provider document with an entry that has neither prefix fails to
/// normalize, with `MissingPrefix`.
pub proof fn lemma_google_missing_prefix(doc: GoogleRange, i: int)
    requires
        0 <= i < doc.prefixes@.len(),
        doc.prefixes@[i].ipv4_prefix is None,
        doc.prefixes@[i].ipv6_prefix is None,
    ensures
        normalize(doc.entry_results()) == Err::<Seq<IpPrefix>, BlockError>(
            BlockError::MissingPrefix,
        ),
{
    let rs = doc.entry_results();
    assert(rs[i] is Err);
    if normalize(rs) is Ok {
        let j = choose|j: int| 0 <= j < rs.len() && (#[trigger] rs[j]) is Err;
        lemma_normalize_ok_entries(rs, j);
    }
    lemma_normalize_error_from_entry(rs);
}

/// A normalization that succeeds had every entry resolve.
proof fn lemma_normalize_ok_entries(rs: Seq<Result<IpPrefix, BlockError>>, j: int)
    requires
        normalize(rs) is Ok,
        0 <= j < rs.len(),
    ensures
        rs[j] is Ok,
    decreases rs.len(),
{
    if j < rs.len() - 1 {
        assert(rs.drop_last()[j] == rs[j]);
        lemma_normalize_ok_entries(rs.drop_last(), j);
    }
}

/// The entry count of a first-provider document is the number of its raw entries.
pub proof fn lemma_aws_entry_count(doc: AWSRange)
    ensures
        doc.entry_results().len() == doc.prefixes@.len(),
{
}

/// The entry count of a second-provider document is the number of its raw entries.
pub proof fn lemma_google_entry_count(doc: GoogleRange)
    ensures
        doc.entry_results().len() == doc.prefixes@.len(),
{
}

} // verus!
