//! Same-user Unix sockets: which endpoints, directories and peers are trusted, and how
//! it is decided who serves the router.
use crate::path::{join, joined_path, PathStyle};
use crate::text::{decimal, digits, from_utf8_lossy, lossy, octal, octal_digits};
use vstd::prelude::*;
use vstd::slice::slice_to_vec;
use vstd::utf8::encode_utf8;

verus! {

/// What kind of thing a name in the file system stands for. A symbolic link is not
/// followed.
#[derive(Clone, Copy, PartialEq, Eq, Structural, Debug)]
pub enum FileKind {
    Directory,
    File,
    Socket,
    Other,
}

/// What the file system says of a name.
#[derive(Clone, Copy, PartialEq, Eq, Structural, Debug)]
pub struct FileFacts {
    pub kind: FileKind,
    pub owner: u32,
    pub mode: u32,
    pub device: u64,
    pub inode: u64,
}

/// A path with another joined to it.
pub open spec fn below(directory: Seq<u8>, name: Seq<u8>) -> Seq<u8> {
    joined_path(PathStyle::Unix, directory, name)
}

/// Where the socket is that a home directory names.
pub open spec fn endpoint_path(home: Seq<u8>) -> Seq<u8> {
    below(home, encode_utf8("ipc/ipc.sock"@))
}

/// Where the socket is that a home directory names.
pub fn endpoint(home: &[u8]) -> (path: Vec<u8>)
    ensures
        path@ == endpoint_path(home@),
{
    join(PathStyle::Unix, home, "ipc/ipc.sock")
}

/// The sockets that earlier clients have used, in the order in which they are tried.
pub open spec fn legacy_paths(directory: Seq<u8>, user: u32) -> Seq<Seq<u8>> {
    if user == 0 {
        seq![
            below(directory, encode_utf8("ipc.sock"@)),
            below(directory, encode_utf8("ipc-0.sock"@)),
        ]
    } else {
        seq![below(directory, encode_utf8("ipc-"@ + digits(user as nat) + ".sock"@))]
    }
}

/// Several byte strings.
pub open spec fn byte_strings(list: Seq<Vec<u8>>) -> Seq<Seq<u8>> {
    Seq::new(list.len(), |i: int| list[i]@)
}

/// The directory below that for temporary files that earlier clients have used.
pub fn legacy_directory(temporary: &[u8]) -> (path: Vec<u8>)
    ensures
        path@ == below(temporary@, encode_utf8("codex-ipc"@)),
{
    join(PathStyle::Unix, temporary, "codex-ipc")
}

/// The sockets that earlier clients have used, in the order in which they are tried.
pub fn legacy_endpoints(directory: &[u8], user: u32) -> (paths: Vec<Vec<u8>>)
    ensures
        byte_strings(paths@) == legacy_paths(directory@, user),
{
    let mut paths: Vec<Vec<u8>> = Vec::new();
    if user == 0 {
        paths.push(join(PathStyle::Unix, directory, "ipc.sock"));
        paths.push(join(PathStyle::Unix, directory, "ipc-0.sock"));
    } else {
        let mut name = String::new();
        name.append("ipc-");
        name.append(decimal(user as u64).as_str());
        name.append(".sock");
        assert(name@ =~= "ipc-"@ + digits(user as nat) + ".sock"@);
        paths.push(join(PathStyle::Unix, directory, name.as_str()));
    }
    assert(byte_strings(paths@) =~= legacy_paths(directory@, user));
    paths
}

/// Which socket an endpoint was, so that a successor's is told from it.
#[derive(Clone)]
pub struct EndpointIdentity {
    pub path: Vec<u8>,
    pub device: u64,
    pub inode: u64,
}

/// Which socket an endpoint was.
pub struct IdentityView {
    pub path: Seq<u8>,
    pub device: u64,
    pub inode: u64,
}

impl View for EndpointIdentity {
    type V = IdentityView;

    open spec fn view(&self) -> IdentityView {
        IdentityView { path: self.path@, device: self.device, inode: self.inode }
    }
}

impl IdentityView {
    /// Whether what is found at the path now is the same socket.
    pub open spec fn current(self, found: Option<FileFacts>) -> bool {
        found matches Some(facts) && facts.device == self.device && facts.inode == self.inode
    }
}

impl EndpointIdentity {
    /// A copy.
    pub fn copy(&self) -> (copy: EndpointIdentity)
        ensures
            copy@ == self@,
    {
        EndpointIdentity {
            path: slice_to_vec(self.path.as_slice()),
            device: self.device,
            inode: self.inode,
        }
    }

    /// Whether what is found at the path now is the same socket.
    pub fn is_current(&self, found: Option<FileFacts>) -> (yes: bool)
        ensures
            yes == self@.current(found),
    {
        match found {
            Some(facts) => facts.device == self.device && facts.inode == self.inode,
            None => false,
        }
    }

    /// Refuses an endpoint that was replaced: what is found at the path now is another
    /// socket, or there is none.
    pub fn require_current(&self, found: Option<FileFacts>) -> (current: Result<(), &'static str>)
        ensures
            match current {
                Ok(()) => self@.current(found),
                Err(reason) => !self@.current(found) && reason@
                    == "Codex IPC endpoint was replaced"@,
            },
    {
        if self.is_current(found) {
            Ok(())
        } else {
            Err("Codex IPC endpoint was replaced")
        }
    }

    /// The path to remove, if any. Never remove an endpoint installed by a successor.
    pub fn unlink_if_current(&self, found: Option<FileFacts>) -> (remove: Option<&[u8]>)
        ensures
            match remove {
                Some(path) => self@.current(found) && path@ == self@.path,
                None => !self@.current(found),
            },
    {
        if self.is_current(found) {
            Some(self.path.as_slice())
        } else {
            None
        }
    }
}

/// Whether a directory may hold a socket. Group write is tolerated: the socket owner
/// and peer credential checks stop a hijack, and a umask of 002 would otherwise lock
/// the provider out.
pub open spec fn is_trusted_directory(found: FileFacts, user: u32) -> bool {
    found.kind is Directory && found.owner == user && found.mode & 0o002 == 0
}

/// Whether a socket may be an endpoint.
pub open spec fn is_trusted_socket(found: FileFacts, user: u32) -> bool {
    found.kind is Socket && found.owner == user
}

/// Whether a file may be the election lock.
pub open spec fn is_trusted_lock(found: FileFacts, user: u32) -> bool {
    found.kind is File && found.owner == user && found.mode & 0o077 == 0
}

/// Why a directory is refused.
pub open spec fn directory_complaint(path: Seq<u8>, mode: u32) -> Seq<char> {
    "Codex IPC directory "@ + lossy(path) + " (mode "@ + octal_digits((mode & 0o777) as nat)
        + ") must be a directory owned by the current user and not world-writable"@
}

/// Refuses a directory that may not hold a socket.
pub fn validate_directory(path: &[u8], found: FileFacts, user: u32) -> (valid: Result<(), String>)
    ensures
        match valid {
            Ok(()) => is_trusted_directory(found, user),
            Err(reason) => !is_trusted_directory(found, user) && reason@ == directory_complaint(
                path@,
                found.mode,
            ),
        },
{
    if found.kind == FileKind::Directory && found.owner == user && found.mode & 0o002 == 0 {
        return Ok(());
    }
    let mut reason = String::new();
    reason.append("Codex IPC directory ");
    reason.append(from_utf8_lossy(path).as_str());
    reason.append(" (mode ");
    reason.append(octal((found.mode & 0o777) as u64).as_str());
    reason.append(") must be a directory owned by the current user and not world-writable");
    assert(reason@ =~= directory_complaint(path@, found.mode));
    Err(reason)
}

/// Refuses what may not be an endpoint.
pub fn validate_socket(found: FileFacts, user: u32) -> (valid: Result<(), &'static str>)
    ensures
        match valid {
            Ok(()) => is_trusted_socket(found, user),
            Err(reason) => !is_trusted_socket(found, user) && reason@
                == "Codex IPC endpoint is not a socket owned by the current user"@,
        },
{
    if found.kind == FileKind::Socket && found.owner == user {
        Ok(())
    } else {
        Err("Codex IPC endpoint is not a socket owned by the current user")
    }
}

/// Refuses a peer of another user.
pub fn validate_peer(peer: u32, user: u32) -> (valid: Result<(), &'static str>)
    ensures
        match valid {
            Ok(()) => peer == user,
            Err(reason) => peer != user && reason@ == "Codex IPC peer belongs to another user"@,
        },
{
    if peer == user {
        Ok(())
    } else {
        Err("Codex IPC peer belongs to another user")
    }
}

/// Refuses what may not be the election lock.
pub fn validate_lock(found: FileFacts, user: u32) -> (valid: Result<(), &'static str>)
    ensures
        match valid {
            Ok(()) => is_trusted_lock(found, user),
            Err(reason) => !is_trusted_lock(found, user) && reason@
                == "unsafe Codex election lock"@,
        },
{
    if found.kind == FileKind::File && found.owner == user && found.mode & 0o077 == 0 {
        Ok(())
    } else {
        Err("unsafe Codex election lock")
    }
}

} // verus!
