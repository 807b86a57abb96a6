use crate::block::{
    blocks_wf, clone_block, clone_string, concat_data, lemma_sum_lengths_nonneg, sum_lengths,
    views_of, Block, BlockV, PartitionedUId, UidV,
};
use crate::codec::{index_bytes, records_for};
use crate::config::HdfsStoreConfig;
use crate::context::RegisterAppContext;
use crate::error::WorkerError;
use vstd::prelude::*;

verus! {

/// Whether `url::Url::parse` accepts the string and finds a host in it.
pub uninterp spec fn url_parses(s: Seq<char>) -> bool;

/// The scheme of the parsed URL.
pub uninterp spec fn url_scheme_of(s: Seq<char>) -> Seq<char>;

/// The host of the parsed URL.
pub uninterp spec fn url_host_of(s: Seq<char>) -> Seq<char>;

/// The port of the parsed URL, if it names one.
pub uninterp spec fn url_port_of(s: Seq<char>) -> Option<u16>;

/// The path of the parsed URL.
pub uninterp spec fn url_path_of(s: Seq<char>) -> Seq<char>;

/// The parts of a remote storage root URL the store works with.
pub struct ParsedUrl {
    pub scheme: String,
    pub host: String,
    pub port: Option<u16>,
    pub path: String,
}

/// Relies on url::Url::parse and its accessors scheme, host, port and
/// path: each is a function of the URL string alone, so their results are
/// named rather than restated.
#[verifier::external_body]
fn parse_url(s: &str) -> (r: Option<ParsedUrl>)
    ensures
        r is Some <==> url_parses(s@),
        r matches Some(p) ==> p.scheme@ == url_scheme_of(s@) && p.host@ == url_host_of(s@) && p.port
            == url_port_of(s@) && p.path@ == url_path_of(s@),
{
    match url::Url::parse(s) {
        Ok(u) => match u.host() {
            Some(h) => Some(ParsedUrl {
                scheme: u.scheme().to_string(),
                host: h.to_string(),
                port: u.port(),
                path: u.path().to_string(),
            }),
            None => None,
        },
        Err(_) => None,
    }
}

/// Splits a remote storage root URL into the parts the store keeps.
pub fn parse_storage_url(s: &str) -> (r: Option<ParsedUrl>)
    ensures
        r is Some <==> url_parses(s@),
        r matches Some(p) ==> p.scheme@ == url_scheme_of(s@) && p.host@ == url_host_of(s@) && p.port
            == url_port_of(s@) && p.path@ == url_path_of(s@),
{
    parse_url(s)
}

/// Copies key/value options, keeping their characters.
fn clone_string_pairs(v: &Vec<(String, String)>) -> (r: Vec<(String, String)>)
    ensures
        pair_views(r@) == pair_views(v@),
{
    let mut r: Vec<(String, String)> = Vec::new();
    let mut i: usize = 0;
    proof {
        assert(pair_views(r@) =~= pair_views(v@).take(0));
    }
    while i < v.len()
        invariant
            i <= v.len(),
            pair_views(r@) == pair_views(v@).take(i as int),
        decreases v.len() - i,
    {
        let ghost prev = r@;
        r.push((clone_string(&v[i].0), clone_string(&v[i].1)));
        proof {
            assert(pair_views(r@) =~= pair_views(prev).push((v@[i as int].0@, v@[i as int].1@)));
            assert(pair_views(v@).take(i as int + 1) =~= pair_views(v@).take(i as int).push(
                (v@[i as int].0@, v@[i as int].1@),
            ));
        }
        i = i + 1;
    }
    proof {
        assert(pair_views(v@).take(v@.len() as int) =~= pair_views(v@));
    }
    r
}

/// Cached per-partition state of the remote files: whether the file pair
/// was created, and the data file's length.
pub struct PartitionCachedMeta {
    pub is_file_created: bool,
    pub data_len: i64,
}

impl PartitionCachedMeta {
    /// Records the data file's length after an acknowledged append.
    pub fn reset(&mut self, len: i64)
        ensures
            final(self).data_len == len,
            final(self).is_file_created == old(self).is_file_created,
    {
        self.data_len = len;
    }
}

impl Default for PartitionCachedMeta {
    fn default() -> (r: Self)
        ensures
            r.is_file_created,
            r.data_len == 0,
    {
        Self { is_file_created: true, data_len: 0 }
    }
}

pub open spec fn pair_views(s: Seq<(String, String)>) -> Seq<(Seq<char>, Seq<char>)> {
    Seq::new(s.len(), |i: int| (s[i].0@, s[i].1@))
}

/// One application's remote filesystem client handle, as plain values: the
/// caller builds the real client from them.
pub struct HdfsClientInfo {
    pub app_id: String,
    pub url_header: String,
    pub root_path: String,
    pub configs: Vec<(String, String)>,
}

/// One partition's cached remote meta, keyed by its id.
pub struct RemoteMetaEntry {
    pub uid: PartitionedUId,
    pub meta: PartitionCachedMeta,
}

pub open spec fn find_client_pos(s: Seq<HdfsClientInfo>, app_id: Seq<char>) -> Option<int>
    decreases s.len(),
{
    if s.len() == 0 {
        None
    } else if s[0].app_id@ == app_id {
        Some(0int)
    } else {
        match find_client_pos(s.drop_first(), app_id) {
            Some(k) => Some(k + 1),
            None => None,
        }
    }
}

pub open spec fn find_remote_pos(s: Seq<RemoteMetaEntry>, uid: UidV) -> Option<int>
    decreases s.len(),
{
    if s.len() == 0 {
        None
    } else if s[0].uid@ == uid {
        Some(0int)
    } else {
        match find_remote_pos(s.drop_first(), uid) {
            Some(k) => Some(k + 1),
            None => None,
        }
    }
}

pub open spec fn remote_meta_of(s: Seq<RemoteMetaEntry>, uid: UidV) -> Option<PartitionCachedMeta> {
    match find_remote_pos(s, uid) {
        Some(k) => Some(s[k].meta),
        None => None,
    }
}

pub open spec fn remote_entries_where(
    s: Seq<RemoteMetaEntry>,
    pred: spec_fn(RemoteMetaEntry) -> bool,
) -> Seq<RemoteMetaEntry>
    decreases s.len(),
{
    if s.len() == 0 {
        s
    } else if pred(s.last()) {
        remote_entries_where(s.drop_last(), pred).push(s.last())
    } else {
        remote_entries_where(s.drop_last(), pred)
    }
}

pub open spec fn remote_in_purge_scope(e: RemoteMetaEntry, app_id: Seq<char>, shuffle_id: Option<
    i32,
>) -> bool {
    e.uid@.app_id == app_id && match shuffle_id {
        Some(s) => e.uid@.shuffle_id == s as int,
        None => true,
    }
}

pub open spec fn remote_entries_total(s: Seq<RemoteMetaEntry>) -> int
    decreases s.len(),
{
    if s.len() == 0 {
        0
    } else {
        remote_entries_total(s.drop_last()) + s.last().meta.data_len
    }
}


/// What one `register_app` call does: success exactly when a remote config
/// is present and its root URL parses; a first registration appends the
/// client, a repeat keeps the first; metas are untouched.
pub open spec fn register_app_post(
    pre: HdfsStore,
    post: HdfsStore,
    app_id: Seq<char>,
    conf: Option<crate::context::RemoteStorageConfig>,
    r: Result<(), crate::error::WorkerError>,
) -> bool {
    &&& post.wf()
    &&& post.metas_spec() == pre.metas_spec()
    &&& post.max_concurrency_spec() == pre.max_concurrency_spec()
    &&& (r is Ok <==> (conf matches Some(c) && url_parses(c.root@)))
    &&& (r is Err ==> post.clients_spec() == pre.clients_spec() && r == Err::<
        (),
        crate::error::WorkerError,
    >(crate::error::WorkerError::INVALID_STORAGE_CONFIG))
    &&& (r is Ok ==> (find_client_pos(pre.clients_spec(), app_id) is Some ==> post.clients_spec()
        == pre.clients_spec()))
    &&& (r is Ok ==> (find_client_pos(pre.clients_spec(), app_id) is None ==> (conf matches Some(
        c,
    ) && post.clients_spec() == pre.clients_spec().push(post.clients_spec().last())
        && post.clients_spec().last().app_id@ == app_id && post.clients_spec().last().root_path@
        == url_path_of(c.root@) && pair_views(post.clients_spec().last().configs@) == pair_views(
        c.configs@,
    ))))
}

/// What one `prepare_data_insert` call does: on success the plan carries
/// the blocks' bytes and index records from the cached data length (the
/// meta is created for a first write, updated only by commit); a purged
/// app cannot write; an i64 overflow on a known partition is refused.
pub open spec fn prepare_remote_post(
    pre: HdfsStore,
    post: HdfsStore,
    uid: UidV,
    blocks: Seq<BlockV>,
    r: Result<RemoteAppendPlan, crate::error::WorkerError>,
) -> bool {
    &&& post.wf()
    &&& post.clients_spec() == pre.clients_spec()
    &&& post.max_concurrency_spec() == pre.max_concurrency_spec()
    &&& (find_client_pos(pre.clients_spec(), uid.app_id) is None ==> r == Err::<
        RemoteAppendPlan,
        crate::error::WorkerError,
    >(crate::error::WorkerError::APP_HAS_BEEN_PURGED) && post.metas_spec() == pre.metas_spec())
    &&& (r matches Ok(plan) ==> ({
        let base = (match remote_meta_of(pre.metas_spec(), uid) {
            Some(m) => m.data_len as int,
            None => 0int,
        });
        &&& plan.data@ == concat_data(blocks)
        &&& plan.index@ == index_bytes(records_for(blocks, base))
        &&& plan.new_data_len == base + sum_lengths(blocks)
        &&& plan.uid@ == uid
        &&& plan.create_files == (remote_meta_of(pre.metas_spec(), uid) is None)
        &&& (match find_client_pos(pre.clients_spec(), uid.app_id) {
            Some(c) => plan.root_path@ == pre.clients_spec()[c].root_path@ && plan.url_header@
                == pre.clients_spec()[c].url_header@,
            None => false,
        })
        &&& (remote_meta_of(post.metas_spec(), uid) matches Some(m) && m.data_len as int == base)
    }))
    &&& (match find_client_pos(pre.clients_spec(), uid.app_id) {
        Some(_) => (r is Ok <==> (match remote_meta_of(pre.metas_spec(), uid) {
            Some(m) => m.data_len + sum_lengths(blocks) <= i64::MAX,
            None => true,
        })),
        None => r is Err,
    })
}

/// What one `commit_data_insert` call does: the known partition's cached
/// data length becomes the committed one; an unknown partition means the
/// app's state was purged meanwhile.
pub open spec fn commit_remote_post(
    pre: HdfsStore,
    post: HdfsStore,
    uid: UidV,
    new_data_len: int,
    r: Result<(), crate::error::WorkerError>,
) -> bool {
    &&& post.wf()
    &&& post.clients_spec() == pre.clients_spec()
    &&& post.max_concurrency_spec() == pre.max_concurrency_spec()
    &&& (r is Ok <==> remote_meta_of(pre.metas_spec(), uid) is Some)
    &&& (r is Err ==> post.metas_spec() == pre.metas_spec() && r == Err::<
        (),
        crate::error::WorkerError,
    >(crate::error::WorkerError::APP_HAS_BEEN_PURGED))
    &&& (r is Ok ==> (match find_remote_pos(pre.metas_spec(), uid) {
        Some(k) => post.metas_spec() == pre.metas_spec().update(k, post.metas_spec()[k])
            && post.metas_spec()[k].uid@ == uid && post.metas_spec()[k].meta.data_len
            == new_data_len && post.metas_spec()[k].meta.is_file_created == pre.metas_spec()[
            k].meta.is_file_created,
        None => false,
    }))
}

/// The remote bytes one purge scope covers, saturated at the i64 limit; an
/// app with no client owes nothing.
pub open spec fn remote_purge_removed(
    pre: HdfsStore,
    app_id: Seq<char>,
    shuffle_id: Option<i32>,
) -> int {
    if find_client_pos(pre.clients_spec(), app_id) is None {
        0
    } else {
        let total = remote_entries_total(
            remote_entries_where(
                pre.metas_spec(),
                |e: RemoteMetaEntry| remote_in_purge_scope(e, app_id, shuffle_id),
            ),
        );
        if total <= i64::MAX {
            total
        } else {
            i64::MAX as int
        }
    }
}

/// What one remote append writes.
pub struct RemoteAppendPlan {
    pub url_header: String,
    pub root_path: String,
    pub uid: PartitionedUId,
    pub create_files: bool,
    pub data: Vec<u8>,
    pub index: Vec<u8>,
    pub new_data_len: i64,
}

/// The remote filesystem tier: per-application client handles and cached
/// partition meta.  Appends mirror the local layout (data bytes, then one
/// 40-byte record per block); reads are not served here, clients fetch
/// from the remote filesystem directly.
pub struct HdfsStore {
    max_concurrency: i32,
    app_remote_clients: Vec<HdfsClientInfo>,
    partition_cached_meta: Vec<RemoteMetaEntry>,
}

impl HdfsStore {
    pub closed spec fn clients_spec(&self) -> Seq<HdfsClientInfo> {
        self.app_remote_clients@
    }

    pub closed spec fn metas_spec(&self) -> Seq<RemoteMetaEntry> {
        self.partition_cached_meta@
    }

    pub closed spec fn max_concurrency_spec(&self) -> int {
        self.max_concurrency as int
    }

    /// Distinct client apps, distinct partition metas, nonnegative data
    /// lengths.
    pub open spec fn wf(&self) -> bool {
        &&& forall|i: int, j: int|
            0 <= i < j < self.clients_spec().len() ==> (#[trigger] self.clients_spec()[i]).app_id@
                != (#[trigger] self.clients_spec()[j]).app_id@
        &&& forall|i: int, j: int|
            0 <= i < j < self.metas_spec().len() ==> (#[trigger] self.metas_spec()[i]).uid@ != (
            #[trigger] self.metas_spec()[j]).uid@
        &&& forall|i: int|
            0 <= i < self.metas_spec().len() ==> 0 <= (#[trigger] self.metas_spec()[i]).meta.data_len
    }

    pub fn from(conf: HdfsStoreConfig) -> (r: HdfsStore)
        ensures
            r.wf(),
            r.clients_spec() == Seq::<HdfsClientInfo>::empty(),
            r.metas_spec() == Seq::<RemoteMetaEntry>::empty(),
            r.max_concurrency_spec() == conf.max_concurrency,
    {
        let r = HdfsStore {
            max_concurrency: conf.max_concurrency,
            app_remote_clients: Vec::new(),
            partition_cached_meta: Vec::new(),
        };
        proof {
            assert(r.clients_spec() =~= Seq::<HdfsClientInfo>::empty());
            assert(r.metas_spec() =~= Seq::<RemoteMetaEntry>::empty());
        }
        r
    }

    /// Registers an application's remote client from its storage config.
    /// A registration without a remote config, or with a root URL that
    /// does not parse, is an invalid config; re-registration keeps the
    /// first client.
    pub fn register_app(&mut self, ctx: RegisterAppContext) -> (r: Result<(), WorkerError>)
        requires
            old(self).wf(),
        ensures
            register_app_post(
                *old(self),
                *final(self),
                ctx.app_id@,
                ctx.remote_storage_config_option,
                r,
            ),
    {
        let conf = match ctx.remote_storage_config_option {
            Some(c) => c,
            None => {
                return Err(WorkerError::INVALID_STORAGE_CONFIG);
            },
        };
        let parsed = match parse_storage_url(conf.root.as_str()) {
            Some(p) => p,
            None => {
                return Err(WorkerError::INVALID_STORAGE_CONFIG);
            },
        };
        if self.find_client(&ctx.app_id).is_some() {
            return Ok(());
        }
        let ghost cs = self.clients_spec();
        let mut url_header = clone_string(&parsed.scheme);
        url_header.append("://");
        url_header.append(parsed.host.as_str());
        let configs = clone_string_pairs(&conf.configs);
        let info = HdfsClientInfo {
            app_id: clone_string(&ctx.app_id),
            url_header,
            root_path: parsed.path,
            configs,
        };
        proof {
            lemma_find_none_absent_clients(cs, ctx.app_id@);
        }
        self.app_remote_clients.push(info);
        proof {
            assert(self.metas_spec() =~= old(self).metas_spec());
            assert forall|i: int, j: int|
                0 <= i < j < self.metas_spec().len() implies (#[trigger] self.metas_spec()[i]).uid@
                != (#[trigger] self.metas_spec()[j]).uid@ by {
                assert(self.metas_spec()[i] == old(self).metas_spec()[i]);
                assert(self.metas_spec()[j] == old(self).metas_spec()[j]);
            }
            assert forall|i: int| 0 <= i < self.metas_spec().len() implies 0 <= (
            #[trigger] self.metas_spec()[i]).meta.data_len by {
                assert(self.metas_spec()[i] == old(self).metas_spec()[i]);
            }
            assert(self.clients_spec() =~= cs.push(self.clients_spec().last()));
            assert forall|i: int, j: int|
                0 <= i < j < self.clients_spec().len() implies (
            #[trigger] self.clients_spec()[i]).app_id@ != (
            #[trigger] self.clients_spec()[j]).app_id@ by {
                if j < cs.len() {
                    assert(self.clients_spec()[i] == cs[i]);
                    assert(self.clients_spec()[j] == cs[j]);
                } else {
                    assert(self.clients_spec()[i] == cs[i]);
                }
            }
        }
        Ok(())
    }

    fn find_client(&self, app_id: &String) -> (r: Option<usize>)
        ensures
            match r {
                Some(k) => find_client_pos(self.clients_spec(), app_id@) == Some(k as int) && (
                k as int) < self.clients_spec().len() && self.clients_spec()[k as int].app_id@
                    == app_id@,
                None => find_client_pos(self.clients_spec(), app_id@) is None,
            },
    {
        let ghost cs = self.clients_spec();
        let mut i: usize = 0;
        while i < self.app_remote_clients.len()
            invariant
                i <= self.app_remote_clients.len(),
                cs == self.clients_spec(),
                forall|j: int| 0 <= j < i ==> (#[trigger] cs[j]).app_id@ != app_id@,
            decreases self.app_remote_clients.len() - i,
        {
            if self.app_remote_clients[i].app_id == *app_id {
                proof {
                    lemma_find_client_at(cs, app_id@, i as int);
                }
                return Some(i);
            }
            i = i + 1;
        }
        proof {
            lemma_find_client_none(cs, app_id@);
        }
        None
    }

    fn find_meta(&self, uid: &PartitionedUId) -> (r: Option<usize>)
        ensures
            match r {
                Some(k) => find_remote_pos(self.metas_spec(), uid@) == Some(k as int) && (k as int)
                    < self.metas_spec().len() && self.metas_spec()[k as int].uid@ == uid@,
                None => find_remote_pos(self.metas_spec(), uid@) is None,
            },
    {
        let ghost ms = self.metas_spec();
        let mut i: usize = 0;
        while i < self.partition_cached_meta.len()
            invariant
                i <= self.partition_cached_meta.len(),
                ms == self.metas_spec(),
                forall|j: int| 0 <= j < i ==> (#[trigger] ms[j]).uid@ != uid@,
            decreases self.partition_cached_meta.len() - i,
        {
            if self.partition_cached_meta[i].uid.eq_uid(uid) {
                proof {
                    lemma_find_remote_at(ms, uid@, i as int);
                }
                return Some(i);
            }
            i = i + 1;
        }
        proof {
            lemma_find_remote_none(ms, uid@);
        }
        None
    }

    /// Builds the bytes one remote append writes for this partition: data
    /// first, then the index records, with offsets running from the cached
    /// data length.  An app whose client was purged cannot write.  The
    /// meta is updated only by `commit_data_insert`.
    pub fn prepare_data_insert(&mut self, uid: &PartitionedUId, blocks: &Vec<Block>) -> (r: Result<
        RemoteAppendPlan,
        WorkerError,
    >)
        requires
            old(self).wf(),
            blocks_wf(views_of(blocks@)),
            sum_lengths(views_of(blocks@)) <= i64::MAX,
        ensures
            prepare_remote_post(*old(self), *final(self), uid@, views_of(blocks@), r),
    {
        let ghost ms = self.metas_spec();
        proof {
            lemma_sum_lengths_nonneg(views_of(blocks@));
        }
        let client_idx = match self.find_client(&uid.app_id) {
            Some(c) => c,
            None => {
                return Err(WorkerError::APP_HAS_BEEN_PURGED);
            },
        };
        let size = crate::block::blocks_total_size(blocks);
        let (base, create_files) = match self.find_meta(uid) {
            Some(k) => {
                let b = self.partition_cached_meta[k].meta.data_len;
                if b > i64::MAX - size {
                    return Err(WorkerError::INTERNAL_ERROR);
                }
                (b, false)
            },
            None => {
                let e = RemoteMetaEntry {
                    uid: uid.clone_uid(),
                    meta: PartitionCachedMeta { is_file_created: true, data_len: 0 },
                };
                proof {
                    lemma_find_none_absent_remotes(ms, uid@);
                }
                self.partition_cached_meta.push(e);
                proof {
                    assert(self.metas_spec() =~= ms.push(self.metas_spec().last()));
                    lemma_find_remote_at(self.metas_spec(), uid@, self.metas_spec().len() - 1);
                    assert forall|i: int, j: int|
                        0 <= i < j < self.metas_spec().len() implies (
                    #[trigger] self.metas_spec()[i]).uid@ != (
                    #[trigger] self.metas_spec()[j]).uid@ by {
                        if j < ms.len() {
                            assert(self.metas_spec()[i] == ms[i]);
                            assert(self.metas_spec()[j] == ms[j]);
                        } else {
                            assert(self.metas_spec()[i] == ms[i]);
                        }
                    }
                    assert forall|i: int| 0 <= i < self.metas_spec().len() implies 0 <= (
                    #[trigger] self.metas_spec()[i]).meta.data_len by {
                        if i < ms.len() {
                            assert(self.metas_spec()[i] == ms[i]);
                        }
                    }
                }
                (0, true)
            },
        };
        let batch = crate::codec::build_append_batch(blocks, base);
        Ok(
            RemoteAppendPlan {
                url_header: clone_string(&self.app_remote_clients[client_idx].url_header),
                root_path: clone_string(&self.app_remote_clients[client_idx].root_path),
                uid: uid.clone_uid(),
                create_files,
                data: batch.data,
                index: batch.index,
                new_data_len: batch.next_offset,
            },
        )
    }

    /// Records the data file's length after the caller performed the
    /// appends.
    pub fn commit_data_insert(&mut self, uid: &PartitionedUId, new_data_len: i64) -> (r: Result<
        (),
        WorkerError,
    >)
        requires
            old(self).wf(),
            0 <= new_data_len,
        ensures
            commit_remote_post(*old(self), *final(self), uid@, new_data_len as int, r),
    {
        let ghost ms = self.metas_spec();
        match self.find_meta(uid) {
            Some(k) => {
                let mut e = self.partition_cached_meta.remove(k);
                e.meta.reset(new_data_len);
                self.partition_cached_meta.insert(k, e);
                proof {
                    assert(self.clients_spec() =~= old(self).clients_spec());
                    assert forall|i: int, j: int|
                        0 <= i < j < self.clients_spec().len() implies (
                    #[trigger] self.clients_spec()[i]).app_id@ != (
                    #[trigger] self.clients_spec()[j]).app_id@ by {
                        assert(self.clients_spec()[i] == old(self).clients_spec()[i]);
                        assert(self.clients_spec()[j] == old(self).clients_spec()[j]);
                    }
                    assert(self.metas_spec() =~= ms.update(k as int, self.metas_spec()[k as int]));
                    assert forall|i: int, j: int|
                        0 <= i < j < self.metas_spec().len() implies (
                    #[trigger] self.metas_spec()[i]).uid@ != (
                    #[trigger] self.metas_spec()[j]).uid@ by {
                        assert(self.metas_spec()[i].uid@ == ms[i].uid@);
                        assert(self.metas_spec()[j].uid@ == ms[j].uid@);
                    }
                    assert forall|i: int| 0 <= i < self.metas_spec().len() implies 0 <= (
                    #[trigger] self.metas_spec()[i]).meta.data_len by {
                        if i != k as int {
                            assert(self.metas_spec()[i] == ms[i]);
                        }
                    }
                }
                Ok(())
            },
            None => Err(WorkerError::APP_HAS_BEEN_PURGED),
        }
    }

    /// The cold tier is write-only: readers fetch from the remote
    /// filesystem directly.
    pub fn get(&self) -> (r: Result<crate::context::PartitionedMemoryData, WorkerError>)
        ensures
            r == Err::<crate::context::PartitionedMemoryData, WorkerError>(
                WorkerError::NOT_READ_HDFS_DATA_FROM_SERVER,
            ),
    {
        Err(WorkerError::NOT_READ_HDFS_DATA_FROM_SERVER)
    }

    /// The cold tier serves no index reads either.
    pub fn get_index(&self) -> (r: Result<Vec<u8>, WorkerError>)
        ensures
            r == Err::<Vec<u8>, WorkerError>(WorkerError::NOT_READ_HDFS_DATA_FROM_SERVER),
    {
        Err(WorkerError::NOT_READ_HDFS_DATA_FROM_SERVER)
    }

    pub fn is_healthy(&self) -> (r: Result<bool, WorkerError>)
        ensures
            r == Ok::<bool, WorkerError>(true),
    {
        Ok(true)
    }

    pub fn name(&self) -> (r: crate::config::StorageType)
        ensures
            r == crate::config::StorageType::HDFS,
    {
        crate::config::StorageType::HDFS
    }

    /// Drops the cached meta of every partition in the purge scope, and
    /// the app's client when the whole app goes; returns the remote bytes
    /// dropped, saturating at the i64 limit.  An app with no client was
    /// already purged: nothing changes and nothing is owed.
    pub fn purge(&mut self, app_id: &String, shuffle_id: Option<i32>) -> (r: Result<
        i64,
        WorkerError,
    >)
        requires
            old(self).wf(),
        ensures
            final(self).wf(),
            r is Ok,
            final(self).max_concurrency_spec() == old(self).max_concurrency_spec(),
            r matches Ok(removed) ==> removed == remote_purge_removed(
                *old(self),
                app_id@,
                shuffle_id,
            ) && 0 <= removed,
            find_client_pos(old(self).clients_spec(), app_id@) is None ==> r == Ok::<
                i64,
                WorkerError,
            >(0) && final(self).metas_spec() == old(self).metas_spec() && final(self).clients_spec()
                == old(self).clients_spec(),
            find_client_pos(old(self).clients_spec(), app_id@) is Some ==> ({
                &&& final(self).metas_spec() == remote_entries_where(
                    old(self).metas_spec(),
                    |e: RemoteMetaEntry| !remote_in_purge_scope(e, app_id@, shuffle_id),
                )
                &&& (shuffle_id is None ==> final(self).clients_spec() == remove_client(
                    old(self).clients_spec(),
                    app_id@,
                ))
                &&& (shuffle_id is Some ==> final(self).clients_spec() == old(self).clients_spec())
            }),
    {
        let ghost cs = self.clients_spec();
        let client = self.find_client(app_id);
        if client.is_none() {
            return Ok(0);
        }
        if shuffle_id.is_none() {
            match client {
                Some(k) => {
                    let _ = self.app_remote_clients.remove(k);
                    proof {
                        lemma_remove_unique_client(cs, app_id@, k as int);
                        let ghost prev = cs;
                        assert forall|j: int|
                            0 <= j < self.clients_spec().len() implies self.clients_spec()[j]
                            == prev.remove(k as int)[j] by {
                            if j < k as int {
                            } else {
                            }
                        }
                        assert(self.clients_spec() =~= cs.remove(k as int));
                        assert forall|i: int, j: int|
                            0 <= i < j < self.clients_spec().len() implies (
                        #[trigger] self.clients_spec()[i]).app_id@ != (
                        #[trigger] self.clients_spec()[j]).app_id@ by {
                            let ra = if i < k as int {
                                i
                            } else {
                                i + 1
                            };
                            let rb = if j < k as int {
                                j
                            } else {
                                j + 1
                            };
                            assert(self.clients_spec()[i] == cs[ra]);
                            assert(self.clients_spec()[j] == cs[rb]);
                        }
                    }
                },
                None => {},
            }
        }
        let ghost ms = self.metas_spec();
        let ghost cs2 = self.clients_spec();
        let ghost pred = |e: RemoteMetaEntry| remote_in_purge_scope(e, app_id@, shuffle_id);
        let mut kept: Vec<RemoteMetaEntry> = Vec::new();
        let mut removed: i128 = 0;
        let _ = self.partition_cached_meta.len();
        proof {
            assert(ms =~= old(self).metas_spec());
            assert forall|i: int| 0 <= i < ms.len() implies 0 <= (
            #[trigger] ms[i]).meta.data_len by {
                assert(ms[i] == old(self).metas_spec()[i]);
            }
            assert forall|i: int, j: int| 0 <= i < j < cs2.len() implies (
            #[trigger] cs2[i]).app_id@ != (#[trigger] cs2[j]).app_id@ by {}
            assert(ms.take(0) =~= Seq::<RemoteMetaEntry>::empty());
            assert(kept@ =~= remote_entries_where(ms.take(0), |e: RemoteMetaEntry| !(pred(e))));
            assert(remote_entries_total(remote_entries_where(ms.take(0), pred)) == 0);
        }
        while self.partition_cached_meta.len() > 0
            invariant
                pred == (|e: RemoteMetaEntry| remote_in_purge_scope(e, app_id@, shuffle_id)),
                kept@ == remote_entries_where(
                    ms.take(ms.len() - self.metas_spec().len()),
                    (|e: RemoteMetaEntry| !(pred(e))),
                ),
                removed == remote_entries_total(
                    remote_entries_where(ms.take(ms.len() - self.metas_spec().len()), pred),
                ),
                self.metas_spec() == ms.skip(ms.len() - self.metas_spec().len()),
                self.metas_spec().len() <= ms.len(),
                ms.len() <= usize::MAX,
                0 <= removed,
                removed as int <= (ms.len() - self.metas_spec().len()) * (i64::MAX as int),
                forall|i: int| 0 <= i < ms.len() ==> 0 <= (#[trigger] ms[i]).meta.data_len,
                self.clients_spec() == cs2,
                self.max_concurrency_spec() == old(self).max_concurrency_spec(),
                forall|i: int, j: int|
                    0 <= i < j < cs2.len() ==> (#[trigger] cs2[i]).app_id@ != (
                    #[trigger] cs2[j]).app_id@,
            decreases self.partition_cached_meta.len(),
        {
            let ghost done = ms.len() - self.metas_spec().len();
            let ghost before = self.metas_spec();
            let e = self.partition_cached_meta.remove(0);
            proof {
                assert(before == ms.skip(done));
                assert(before[0] == ms[done]);
                assert(self.metas_spec() =~= ms.skip(done + 1));
                assert(ms.take(done + 1) =~= ms.take(done).push(ms[done]));
                lemma_remote_entries_where_push(ms.take(done), ms[done], pred);
                lemma_remote_entries_where_push(
                    ms.take(done),
                    ms[done],
                    |x: RemoteMetaEntry| !(pred(x)),
                );
                lemma_remote_entries_total_push(remote_entries_where(ms.take(done), pred), ms[done]);
                assert((done + 1) * (i64::MAX as int) == done * (i64::MAX as int) + (i64::MAX
                    as int)) by (nonlinear_arith);
                assert(done * (i64::MAX as int) <= (usize::MAX as int) * (i64::MAX as int))
                    by (nonlinear_arith)
                    requires
                        0 <= done <= usize::MAX as int,
                ;
            }
            let selected = e.uid.app_id == *app_id && (match shuffle_id {
                Some(sid) => e.uid.shuffle_id == sid,
                None => true,
            });
            proof {
                assert(selected == pred(ms[done]));
            }
            if selected {
                removed = removed + e.meta.data_len as i128;
            } else {
                kept.push(e);
            }
        }
        proof {
            assert(ms.take(ms.len() - self.metas_spec().len()) =~= ms);
        }
        self.partition_cached_meta = kept;
        proof {
            assert(self.clients_spec() =~= cs2);
            assert forall|i: int, j: int|
                0 <= i < j < self.clients_spec().len() implies (
            #[trigger] self.clients_spec()[i]).app_id@ != (
            #[trigger] self.clients_spec()[j]).app_id@ by {
                assert(self.clients_spec()[i] == cs2[i]);
                assert(self.clients_spec()[j] == cs2[j]);
            }
            let notpred = |x: RemoteMetaEntry| !(pred(x));
            lemma_remote_entries_where_wf2(ms, notpred);
            let fin2 = remote_entries_where(ms, notpred);
            assert forall|i: int, j: int| 0 <= i < j < fin2.len() implies (
            #[trigger] fin2[i]).uid@ != (#[trigger] fin2[j]).uid@ by {}
            lemma_remote_entries_where_wf(ms, |x: RemoteMetaEntry| !(pred(x)));
            let fin = remote_entries_where(ms, |x: RemoteMetaEntry| !(pred(x)));
            assert forall|i: int| 0 <= i < fin.len() implies 0 <= (
            #[trigger] fin[i]).meta.data_len by {
                let k = choose|k: int| 0 <= k < ms.len() && #[trigger] ms[k] == fin[i];
            }
            assert((|x: RemoteMetaEntry| !(pred(x))) =~= (|e: RemoteMetaEntry|
                !remote_in_purge_scope(e, app_id@, shuffle_id)));
        }
        if removed > i64::MAX as i128 {
            Ok(i64::MAX)
        } else {
            Ok(removed as i64)
        }
    }
}

/// All clients except those of the given app, in order.
pub open spec fn remove_client(s: Seq<HdfsClientInfo>, app_id: Seq<char>) -> Seq<HdfsClientInfo>
    decreases s.len(),
{
    if s.len() == 0 {
        s
    } else if s.last().app_id@ == app_id {
        remove_client(s.drop_last(), app_id)
    } else {
        remove_client(s.drop_last(), app_id).push(s.last())
    }
}

proof fn lemma_remote_entries_where_push(
    s: Seq<RemoteMetaEntry>,
    e: RemoteMetaEntry,
    pred: spec_fn(RemoteMetaEntry) -> bool,
)
    ensures
        remote_entries_where(s.push(e), pred) == if pred(e) {
            remote_entries_where(s, pred).push(e)
        } else {
            remote_entries_where(s, pred)
        },
{
    assert(s.push(e).drop_last() =~= s);
}

proof fn lemma_remote_entries_total_push(s: Seq<RemoteMetaEntry>, e: RemoteMetaEntry)
    ensures
        remote_entries_total(s.push(e)) == remote_entries_total(s) + e.meta.data_len,
{
    assert(s.push(e).drop_last() =~= s);
}

/// Selection keeps distinct partition ids.
proof fn lemma_remote_entries_where_wf2(
    s: Seq<RemoteMetaEntry>,
    pred: spec_fn(RemoteMetaEntry) -> bool,
)
    requires
        forall|a: int, b: int|
            0 <= a < b < s.len() ==> (#[trigger] s[a]).uid@ != (#[trigger] s[b]).uid@,
    ensures
        forall|i: int, j: int|
            0 <= i < j < remote_entries_where(s, pred).len() ==> (#[trigger] remote_entries_where(
                s,
                pred,
            )[i]).uid@ != (#[trigger] remote_entries_where(s, pred)[j]).uid@,
    decreases s.len(),
{
    if s.len() > 0 {
        let d = s.drop_last();
        assert(forall|a: int, b: int|
            0 <= a < b < d.len() ==> (#[trigger] d[a]).uid@ != (#[trigger] d[b]).uid@);
        lemma_remote_entries_where_wf2(d, pred);
        lemma_remote_entries_where_wf(d, pred);
        let w = remote_entries_where(s, pred);
        let wd = remote_entries_where(d, pred);
        if pred(s.last()) {
            assert(w == wd.push(s.last()));
            assert forall|i: int, j: int| 0 <= i < j < w.len() implies (#[trigger] w[i]).uid@ != (
            #[trigger] w[j]).uid@ by {
                if j < w.len() - 1 {
                } else {
                    let k = choose|k: int| 0 <= k < d.len() && #[trigger] d[k] == wd[i];
                    assert(s[k] == w[i]);
                    assert(s.last() == s[s.len() - 1]);
                }
            }
        }
    }
}

proof fn lemma_remote_entries_where_wf(
    s: Seq<RemoteMetaEntry>,
    pred: spec_fn(RemoteMetaEntry) -> bool,
)
    ensures
        forall|i: int| #![trigger remote_entries_where(s, pred)[i]]
            0 <= i < remote_entries_where(s, pred).len() ==> exists|k: int|
                0 <= k < s.len() && #[trigger] s[k] == remote_entries_where(s, pred)[i],
    decreases s.len(),
{
    if s.len() > 0 {
        let d = s.drop_last();
        lemma_remote_entries_where_wf(d, pred);
        let w = remote_entries_where(s, pred);
        let wd = remote_entries_where(d, pred);
        if pred(s.last()) {
            assert forall|i: int| #![trigger w[i]] 0 <= i < w.len() implies exists|k: int|
                0 <= k < s.len() && #[trigger] s[k] == w[i] by {
                if i < w.len() - 1 {
                    let k = choose|k: int| 0 <= k < d.len() && #[trigger] d[k] == wd[i];
                    assert(s[k] == w[i]);
                } else {
                    assert(s[s.len() - 1] == w[i]);
                }
            }
        } else {
            assert forall|i: int| #![trigger w[i]] 0 <= i < w.len() implies exists|k: int|
                0 <= k < s.len() && #[trigger] s[k] == w[i] by {
                let k = choose|k: int| 0 <= k < d.len() && #[trigger] d[k] == wd[i];
                assert(s[k] == w[i]);
            }
        }
    }
}

proof fn lemma_find_client_at(s: Seq<HdfsClientInfo>, app_id: Seq<char>, i: int)
    requires
        0 <= i < s.len(),
        s[i].app_id@ == app_id,
        forall|j: int| 0 <= j < i ==> (#[trigger] s[j]).app_id@ != app_id,
    ensures
        find_client_pos(s, app_id) == Some(i),
    decreases s.len(),
{
    if i == 0 {
    } else {
        let d = s.drop_first();
        assert(d[i - 1] == s[i]);
        assert(forall|j: int| 0 <= j < i - 1 ==> (#[trigger] d[j]).app_id@ != app_id);
        lemma_find_client_at(d, app_id, i - 1);
    }
}

proof fn lemma_find_client_none(s: Seq<HdfsClientInfo>, app_id: Seq<char>)
    requires
        forall|j: int| 0 <= j < s.len() ==> (#[trigger] s[j]).app_id@ != app_id,
    ensures
        find_client_pos(s, app_id) is None,
    decreases s.len(),
{
    if s.len() > 0 {
        let d = s.drop_first();
        assert(forall|j: int| 0 <= j < d.len() ==> (#[trigger] d[j]).app_id@ != app_id);
        lemma_find_client_none(d, app_id);
    }
}

proof fn lemma_find_none_absent_clients(s: Seq<HdfsClientInfo>, app_id: Seq<char>)
    requires
        find_client_pos(s, app_id) is None,
    ensures
        forall|j: int| 0 <= j < s.len() ==> (#[trigger] s[j]).app_id@ != app_id,
    decreases s.len(),
{
    if s.len() > 0 {
        lemma_find_none_absent_clients(s.drop_first(), app_id);
        assert forall|j: int| 0 <= j < s.len() implies (#[trigger] s[j]).app_id@ != app_id by {
            if j > 0 {
                assert(s.drop_first()[j - 1] == s[j]);
            }
        }
    }
}

/// Removing the unique position holding the app is the same as filtering
/// the app out.
proof fn lemma_remove_unique_client(s: Seq<HdfsClientInfo>, app_id: Seq<char>, at: int)
    requires
        0 <= at < s.len(),
        s[at].app_id@ == app_id,
        forall|i: int, j: int|
            0 <= i < j < s.len() ==> (#[trigger] s[i]).app_id@ != (#[trigger] s[j]).app_id@,
    ensures
        s.remove(at) == remove_client(s, app_id),
    decreases s.len(),
{
    if s.len() > 0 {
        let d = s.drop_last();
        assert(forall|i: int, j: int|
            0 <= i < j < d.len() ==> (#[trigger] d[i]).app_id@ != (#[trigger] d[j]).app_id@);
        if at == s.len() - 1 {
            assert(s.last().app_id@ == app_id);
            assert(s.remove(at) =~= d);
            lemma_remove_absent_client(d, app_id);
        } else {
            assert(s.last().app_id@ != app_id);
            assert(d[at].app_id@ == app_id);
            lemma_remove_unique_client(d, app_id, at);
            assert(s.remove(at) =~= d.remove(at).push(s.last()));
        }
    }
}

proof fn lemma_remove_absent_client(s: Seq<HdfsClientInfo>, app_id: Seq<char>)
    requires
        forall|j: int| 0 <= j < s.len() ==> (#[trigger] s[j]).app_id@ != app_id,
    ensures
        remove_client(s, app_id) == s,
    decreases s.len(),
{
    if s.len() > 0 {
        let d = s.drop_last();
        assert(forall|j: int| 0 <= j < d.len() ==> (#[trigger] d[j]).app_id@ != app_id);
        lemma_remove_absent_client(d, app_id);
        assert(remove_client(s, app_id) =~= s);
    }
}

proof fn lemma_find_remote_at(s: Seq<RemoteMetaEntry>, uid: UidV, i: int)
    requires
        0 <= i < s.len(),
        s[i].uid@ == uid,
        forall|j: int| 0 <= j < i ==> (#[trigger] s[j]).uid@ != uid,
    ensures
        find_remote_pos(s, uid) == Some(i),
    decreases s.len(),
{
    if i == 0 {
    } else {
        let d = s.drop_first();
        assert(d[i - 1] == s[i]);
        assert(forall|j: int| 0 <= j < i - 1 ==> (#[trigger] d[j]).uid@ != uid);
        lemma_find_remote_at(d, uid, i - 1);
    }
}

proof fn lemma_find_remote_none(s: Seq<RemoteMetaEntry>, uid: UidV)
    requires
        forall|j: int| 0 <= j < s.len() ==> (#[trigger] s[j]).uid@ != uid,
    ensures
        find_remote_pos(s, uid) is None,
    decreases s.len(),
{
    if s.len() > 0 {
        let d = s.drop_first();
        assert(forall|j: int| 0 <= j < d.len() ==> (#[trigger] d[j]).uid@ != uid);
        lemma_find_remote_none(d, uid);
    }
}

proof fn lemma_find_none_absent_remotes(s: Seq<RemoteMetaEntry>, uid: UidV)
    requires
        find_remote_pos(s, uid) is None,
    ensures
        forall|j: int| 0 <= j < s.len() ==> (#[trigger] s[j]).uid@ != uid,
    decreases s.len(),
{
    if s.len() > 0 {
        lemma_find_none_absent_remotes(s.drop_first(), uid);
        assert forall|j: int| 0 <= j < s.len() implies (#[trigger] s[j]).uid@ != uid by {
            if j > 0 {
                assert(s.drop_first()[j - 1] == s[j]);
            }
        }
    }
}

} // verus!
