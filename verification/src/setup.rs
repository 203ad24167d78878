//! What a mount is made of, from what it was asked to be.
use crate::hub_api;
use crate::hub_api::{parse_repo_id, split_path_prefix, SourceKind, SourceModel};
use crate::protocol;
use crate::text::concat;
use crate::time::Duration;
use crate::virtual_fs::VfsConfig;
use vstd::prelude::*;
use vstd::string::*;

verus! {

broadcast use vstd::string::group_string_axioms;

/// What to mount, and where.
#[derive(Debug)]
pub enum Source {
    /// A bucket, which can be written to.
    Bucket {
        /// The bucket, optionally with a subfolder, as in `user/bucket/path/to/dir`.
        bucket_id: String,
        mount_point: String,
    },
    /// A repository, which can only be read.
    Repo {
        /// The repository, optionally with a type in front and a subfolder behind, as in
        /// `datasets/user/ds/train`.
        repo_id: String,
        mount_point: String,
        revision: String,
    },
}

/// What a `Source` names, in the words of `SourceKind`.
pub open spec fn source_label(source: Source) -> Seq<char> {
    match source {
        Source::Bucket { bucket_id, .. } => "bucket/"@ + bucket_id@,
        Source::Repo { repo_id, revision, .. } => {
            let (repo_type, id) = hub_api::repo_id_parts(repo_id@);
            repo_type.label() + "/"@ + id + "/"@ + revision@
        },
    }
}

/// What is mounted, and the subfolder of it; nothing if the subfolder is not a proper path.
pub open spec fn source_split(source: Source) -> Option<(SourceModel, Seq<char>)> {
    match source {
        Source::Bucket { bucket_id, .. } => match hub_api::prefix_split(bucket_id@) {
            Some((id, prefix)) => Some((SourceModel::Bucket { bucket_id: id }, prefix)),
            None => None,
        },
        Source::Repo { repo_id, revision, .. } => {
            let (repo_type, rest) = hub_api::repo_id_parts(repo_id@);
            match hub_api::prefix_split(rest) {
                Some((id, prefix)) => Some(
                    (SourceModel::Repo { repo_id: id, repo_type, revision: revision@ }, prefix),
                ),
                None => None,
            }
        },
    }
}

impl Source {
    pub fn mount_point(&self) -> (r: &str)
        ensures
            r@ == match *self {
                Source::Bucket { mount_point, .. } => mount_point@,
                Source::Repo { mount_point, .. } => mount_point@,
            },
    {
        match self {
            Source::Bucket { mount_point, .. } => mount_point.as_str(),
            Source::Repo { mount_point, .. } => mount_point.as_str(),
        }
    }

    /// A name for people, in the form that `SourceKind` has.
    pub fn label(&self) -> (r: String)
        ensures
            r@ == source_label(*self),
    {
        match self {
            Source::Bucket { bucket_id, .. } => concat("bucket/", bucket_id.as_str()),
            Source::Repo { repo_id, revision, .. } => {
                let (repo_type, id) = parse_repo_id(repo_id.as_str());
                let mut out = repo_type.name().to_owned();
                out.append("/");
                out.append(id.as_str());
                out.append("/");
                out.append(revision.as_str());
                out
            },
        }
    }

    /// What is mounted, and the subfolder of it.
    pub fn resolve(&self) -> (r: std::result::Result<(SourceKind, String), String>)
        ensures
            r is Err <==> source_split(*self) is None,
            r matches Ok((kind, prefix)) ==> Some((kind@, prefix@)) == source_split(*self),
            r matches Err(e) ==> e@ == (if self is Bucket {
                "invalid bucket path: "@
            } else {
                "invalid repo path: "@
            }) + "path prefix must not contain '.' or '..' components"@,
    {
        match self {
            Source::Bucket { bucket_id, .. } => match split_path_prefix(bucket_id.as_str()) {
                Ok((id, prefix)) => Ok(
                    (SourceKind::Bucket { bucket_id: id.to_owned() }, prefix.to_owned()),
                ),
                Err(e) => Err(concat("invalid bucket path: ", e)),
            },
            Source::Repo { repo_id, revision, .. } => {
                let (repo_type, rest) = parse_repo_id(repo_id.as_str());
                match split_path_prefix(rest.as_str()) {
                    Ok((id, prefix)) => Ok(
                        (
                            SourceKind::Repo {
                                repo_id: id.to_owned(),
                                repo_type,
                                revision: revision.clone(),
                            },
                            prefix.to_owned(),
                        ),
                    ),
                    Err(e) => Err(concat("invalid repo path: ", e)),
                }
            },
        }
    }
}

/// The options of a mount that decide what it is.
#[derive(Debug, Clone, Copy)]
pub struct MountOptions {
    pub uid: Option<u32>,
    pub gid: Option<u32>,
    pub read_only: bool,
    pub advanced_writes: bool,
    pub poll_interval_secs: u64,
    pub no_disk_cache: bool,
    pub direct_io: bool,
    pub metadata_ttl_ms: u64,
    pub metadata_ttl_minimal: bool,
    pub max_threads: usize,
    pub flush_debounce_ms: u64,
    pub flush_max_batch_window_ms: u64,
    pub no_filter_os_files: bool,
    pub fuse_owner_only: bool,
    pub inode_soft_limit: usize,
    pub lru_sweep_interval_ms: u64,
}

/// The kind of server that offers the files.
#[derive(Debug, Clone, Copy, PartialEq, Eq, Structural)]
pub enum Backend {
    Fuse,
    Nfs,
}

impl Backend {
    pub fn name(&self) -> (r: &'static str)
        ensures
            r@ == match *self {
                Backend::Fuse => "fuse"@,
                Backend::Nfs => "nfs"@,
            },
    {
        match self {
            Backend::Fuse => "fuse",
            Backend::Nfs => "nfs",
        }
    }
}

/// What a mount is made of.
#[derive(Debug, Clone, Copy)]
pub struct MountPlan {
    pub config: VfsConfig,
    /// Content can be uploaded.
    pub uploads: bool,
    /// There is a directory for staging files and downloads.
    pub staging: bool,
    /// Chunks are kept on disk.
    pub chunk_cache: bool,
}

/// A repository is always mounted read-only.
pub open spec fn is_read_only(options: MountOptions, is_repo: bool) -> bool {
    options.read_only || is_repo
}

/// Staging files are used if asked for, and over NFS, which knows no open and close, wherever there
/// is anything to write.
pub open spec fn has_advanced_writes(options: MountOptions, is_repo: bool, backend: Backend) -> bool {
    options.advanced_writes || (backend == Backend::Nfs && !is_read_only(options, is_repo))
}

/// The plan of a mount for a user with these numbers.
///
/// An NFS client takes inode numbers for lasting and is not told when one is given up, so inodes are
/// not evicted then; nor does it know of direct I/O.
pub open spec fn spec_plan(
    options: MountOptions,
    is_repo: bool,
    backend: Backend,
    uid: u32,
    gid: u32,
) -> MountPlan {
    let read_only = is_read_only(options, is_repo);
    let advanced_writes = has_advanced_writes(options, is_repo, backend);
    MountPlan {
        config: VfsConfig {
            read_only,
            advanced_writes,
            uid: match options.uid {
                Some(u) => u,
                None => uid,
            },
            gid: match options.gid {
                Some(g) => g,
                None => gid,
            },
            poll_interval_secs: options.poll_interval_secs,
            metadata_ttl: Duration::from_millis(options.metadata_ttl_ms),
            serve_lookup_from_cache: !options.metadata_ttl_minimal,
            filter_os_files: !options.no_filter_os_files,
            direct_io: options.direct_io && backend == Backend::Fuse,
            flush_debounce: Duration::from_millis(options.flush_debounce_ms),
            flush_max_batch_window: Duration::from_millis(options.flush_max_batch_window_ms),
            inode_soft_limit: if backend == Backend::Nfs {
                0
            } else {
                options.inode_soft_limit
            },
            lru_sweep_interval: Duration::from_millis(options.lru_sweep_interval_ms),
        },
        uploads: !read_only,
        staging: advanced_writes || is_repo,
        chunk_cache: !options.no_disk_cache,
    }
}

/// The plan of a mount for the user `uid` of group `gid`, who count unless the options name others.
pub fn plan(options: &MountOptions, is_repo: bool, backend: Backend, uid: u32, gid: u32) -> (r:
    MountPlan)
    ensures
        r == spec_plan(*options, is_repo, backend, uid, gid),
{
    let read_only = options.read_only || is_repo;
    let advanced_writes = options.advanced_writes || (backend == Backend::Nfs && !read_only);
    let owner: u32 = match options.uid {
        Some(u) => u,
        None => uid,
    };
    let group: u32 = match options.gid {
        Some(g) => g,
        None => gid,
    };
    let inode_soft_limit: usize = if backend == Backend::Nfs {
        0
    } else {
        options.inode_soft_limit
    };
    MountPlan {
        config: VfsConfig {
            read_only,
            advanced_writes,
            uid: owner,
            gid: group,
            poll_interval_secs: options.poll_interval_secs,
            metadata_ttl: Duration::from_millis(options.metadata_ttl_ms),
            serve_lookup_from_cache: !options.metadata_ttl_minimal,
            filter_os_files: !options.no_filter_os_files,
            direct_io: options.direct_io && backend == Backend::Fuse,
            flush_debounce: Duration::from_millis(options.flush_debounce_ms),
            flush_max_batch_window: Duration::from_millis(options.flush_max_batch_window_ms),
            inode_soft_limit,
            lru_sweep_interval: Duration::from_millis(options.lru_sweep_interval_ms),
        },
        uploads: !read_only,
        staging: advanced_writes || is_repo,
        chunk_cache: !options.no_disk_cache,
    }
}

/// A repository is never written to, however it is mounted.
pub proof fn law_repos_are_read_only(
    options: MountOptions,
    backend: Backend,
    uid: u32,
    gid: u32,
)
    ensures
        spec_plan(options, true, backend, uid, gid).config.read_only,
        !spec_plan(options, true, backend, uid, gid).uploads,
{
}

/// Over NFS no inode is evicted, and whatever can be written goes through staging files.
pub proof fn law_nfs_keeps_inodes_and_stages_writes(
    options: MountOptions,
    is_repo: bool,
    uid: u32,
    gid: u32,
)
    ensures
        ({
            let p = spec_plan(options, is_repo, Backend::Nfs, uid, gid);
            &&& p.config.inode_soft_limit == 0
            &&& p.config.read_only || p.config.advanced_writes && p.staging
        }),
{
}

/// A mount is what it was asked to be: owned by whom the options name, or else by whom it is mounted
/// for, with the times that the options give, and with staging files where they are asked for or
/// needed.
pub proof fn law_options_are_honoured(
    options: MountOptions,
    is_repo: bool,
    backend: Backend,
    uid: u32,
    gid: u32,
)
    ensures
        ({
            let p = spec_plan(options, is_repo, backend, uid, gid);
            let c = p.config;
            &&& options.uid matches Some(u) ==> c.uid == u
            &&& options.uid is None ==> c.uid == uid
            &&& options.gid matches Some(g) ==> c.gid == g
            &&& options.gid is None ==> c.gid == gid
            &&& c.read_only <==> options.read_only || is_repo
            &&& p.uploads <==> !c.read_only
            &&& options.advanced_writes ==> c.advanced_writes
            &&& backend == Backend::Fuse && !options.advanced_writes ==> !c.advanced_writes
            &&& p.staging <==> c.advanced_writes || is_repo
            &&& p.chunk_cache <==> !options.no_disk_cache
            &&& c.poll_interval_secs == options.poll_interval_secs
            &&& c.metadata_ttl.nanos == options.metadata_ttl_ms * 1_000_000
            &&& c.flush_debounce.nanos == options.flush_debounce_ms * 1_000_000
            &&& c.flush_max_batch_window.nanos == options.flush_max_batch_window_ms * 1_000_000
            &&& c.lru_sweep_interval.nanos == options.lru_sweep_interval_ms * 1_000_000
            &&& c.serve_lookup_from_cache <==> !options.metadata_ttl_minimal
            &&& c.filter_os_files <==> !options.no_filter_os_files
            &&& c.direct_io <==> options.direct_io && backend == Backend::Fuse
            &&& backend == Backend::Fuse ==> c.inode_soft_limit == options.inode_soft_limit
        }),
{
}

/// What is mounted is what was named: the subfolder behind the ID, the type in front of it, and the
/// revision make up what was asked for.
pub proof fn law_sources_are_what_was_named(source: Source)
    ensures
        source_split(source) matches Some((kind, prefix)) ==> match (source, kind) {
            (Source::Bucket { bucket_id: raw, .. }, SourceModel::Bucket { bucket_id }) => {
                named(bucket_id, prefix).is_prefix_of(raw@)
            },
            (
                Source::Repo { repo_id: raw, revision: asked, .. },
                SourceModel::Repo { repo_id, repo_type, revision },
            ) => {
                &&& (repo_type.resolve_segment() + named(repo_id, prefix)).is_prefix_of(raw@)
                &&& revision == asked@
            },
            _ => false,
        },
{
    match source {
        Source::Bucket { bucket_id: raw, .. } => {
            protocol::law_identifiers_are_split(raw@);
        },
        Source::Repo { repo_id: raw, .. } => {
            protocol::law_repo_ids_name_their_type(raw@);
            let (repo_type, rest) = hub_api::repo_id_parts(raw@);
            protocol::law_identifiers_are_split(rest);
            if let Some((id, prefix)) = hub_api::prefix_split(rest) {
                let whole = named(id, prefix);
                let head = repo_type.resolve_segment();
                assert(whole.is_prefix_of(rest));
                assert((head + whole).is_prefix_of(raw@)) by {
                    assert(raw@ == head + rest);
                    assert(rest.subrange(0, whole.len() as int) =~= whole);
                    assert((head + rest).subrange(0, (head + whole).len() as int) =~= head + whole);
                }
            }
        },
    }
}

/// An ID with a subfolder behind it.
pub open spec fn named(id: Seq<char>, prefix: Seq<char>) -> Seq<char> {
    if prefix.len() > 0 {
        id + seq!['/'] + prefix
    } else {
        id
    }
}

/// How many open files are asked for.
pub const TARGET_NOFILE: u64 = 65536;

/// The limit of open files to set, if the current one is to be raised: the target, or what is
/// allowed.
pub fn raised_fd_limit(current: u64, max: u64) -> (r: Option<u64>)
    ensures
        r == if current >= TARGET_NOFILE {
            None::<u64>
        } else if TARGET_NOFILE <= max {
            Some(TARGET_NOFILE)
        } else {
            Some(max)
        },
{
    if current >= TARGET_NOFILE {
        None
    } else if TARGET_NOFILE <= max {
        Some(TARGET_NOFILE)
    } else {
        Some(max)
    }
}

} // verus!
