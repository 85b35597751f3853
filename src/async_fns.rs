//! Checksum verification requests: queued per package and version, sent as
//! one batch by the caller, and matched back to the catalog by their key.
use vstd::prelude::*;
use vstd::string::StringSliceAdditionalSpecFns;
use crate::packages::Packages;

verus! {

/// The server asked when no other is set.
pub const DEFAULT_SERVER: &'static str = "ece459.patricklam.ca:4590";

/// Bytes that percent-encoding leaves as they are.
pub open spec fn unreserved(b: u8) -> bool {
    (48 <= b <= 57) || (65 <= b <= 90) || (97 <= b <= 122) || b == 45 || b == 46 || b == 95 || b == 126
}

/// Upper-case hexadecimal digit of `d` (below 16).
pub open spec fn hex_digit(d: u8) -> char {
    if d < 10 {
        (48 + d) as char
    } else {
        (55 + d) as char
    }
}

/// Percent-encoding: each byte but the unreserved ones becomes `%` and two hex digits.
pub open spec fn percent_encoded(bytes: Seq<u8>) -> Seq<char>
    decreases bytes.len(),
{
    if bytes.len() == 0 {
        Seq::empty()
    } else {
        let b = bytes[0];
        let head = if unreserved(b) {
            seq![b as char]
        } else {
            seq!['%', hex_digit(b / 16), hex_digit(b % 16)]
        };
        head + percent_encoded(bytes.skip(1))
    }
}

/// Relies on urlencoding::encode, which percent-encodes the UTF-8 bytes of
/// its argument, keeping alphanumerics and `-`, `_`, `.`, `~`.
#[verifier::external_body]
fn url_encode(s: &str) -> (r: String)
    ensures
        r@ == percent_encoded(s.spec_bytes()),
{
    urlencoding::encode(s).into_owned()
}

/// The address of the checksum of `package` at `version` on `server`.
pub open spec fn request_url(server: Seq<char>, package: Seq<char>, version: Seq<char>) -> Seq<char> {
    "http://"@ + server + "/rest/v1/checksums/"@ + package + "/"@ + version
}

/// A queued request; `key` ties the answer back to it.
pub struct VerificationRequest {
    pub url: String,
    pub key: usize,
    pub package_name: String,
    pub version: String,
    pub package_num: usize,
}

/// What one answer says.
pub enum VerificationOutcome {
    /// The server gave a checksum; `matches` tells whether it is the recorded one.
    Checked { package_name: String, matches: bool },
    /// The server answered with an error status.
    Failed { status: u32, package_name: String, version: String },
}

pub struct AsyncState {
    pub server: String,
    pub pending: Vec<VerificationRequest>,
}

impl AsyncState {
    /// Each request's key is its place in the queue, and it names a known package.
    pub open spec fn wf(&self, n: nat) -> bool {
        forall|i: int|
            0 <= i < self.pending@.len() ==> (#[trigger] self.pending@[i]).key == i && self.pending@[i].package_num < n
    }

    pub fn new() -> (r: AsyncState)
        ensures
            r.pending@.len() == 0,
            r.server@ == DEFAULT_SERVER@,
    {
        AsyncState { server: String::from_str(DEFAULT_SERVER), pending: Vec::new() }
    }
}

impl Packages {
    /// Sets the server that requests queued from now on go to.
    pub fn set_server(&mut self, new_server: &str)
        ensures
            final(self).async_state.server@ == new_server@,
            final(self).async_state.pending == old(self).async_state.pending,
            final(self).package_names == old(self).package_names,
            final(self).package_nums == old(self).package_nums,
            final(self).installed_debvers == old(self).installed_debvers,
            final(self).available_debvers == old(self).available_debvers,
            final(self).md5sums == old(self).md5sums,
            final(self).dependencies == old(self).dependencies,
    {
        self.async_state.server = String::from_str(new_server);
    }

    /// Queues a request for the checksum of `pkg` at `version`; nothing is sent.
    pub fn enq_verify_with_version(&mut self, pkg: &str, version: &str)
        requires
            old(self).wf(),
            old(self).num_packages() < usize::MAX,
        ensures
            final(self).wf(),
            old(self).extends(&*final(self)),
            final(self).knows(pkg@),
            final(self).async_state.server == old(self).async_state.server,
            final(self).async_state.pending@.len() == old(self).async_state.pending@.len() + 1,
            final(self).async_state.pending@.take(old(self).async_state.pending@.len() as int)
                == old(self).async_state.pending@,
            ({
                let q = final(self).async_state.pending@.last();
                &&& q.key == old(self).async_state.pending@.len()
                &&& q.package_name@ == pkg@
                &&& q.version@ == version@
                &&& q.package_num == final(self).num_of(pkg@)
                &&& q.url@ == request_url(
                    old(self).async_state.server@,
                    percent_encoded(pkg.spec_bytes()),
                    percent_encoded(version.spec_bytes()),
                )
            }),
    {
        let encoded_pkg = url_encode(pkg);
        let encoded_version = url_encode(version);
        let url = String::from_str("http://").concat(self.async_state.server.as_str()).concat(
            "/rest/v1/checksums/",
        ).concat(encoded_pkg.as_str()).concat("/").concat(encoded_version.as_str());
        let ghost before = *self;
        let pkg_number = self.get_package_num_inserting(pkg);
        let key = self.async_state.pending.len();
        self.async_state.pending.push(
            VerificationRequest {
                url,
                key,
                package_name: String::from_str(pkg),
                version: String::from_str(version),
                package_num: pkg_number,
            },
        );
        proof {
            assert(self.async_state.pending@.take(before.async_state.pending@.len() as int) =~= before.async_state.pending@);
            assert forall|i: int| 0 <= i < self.async_state.pending@.len() implies (
            #[trigger] self.async_state.pending@[i]).key == i && self.async_state.pending@[i].package_num
                < self.num_packages() by {
                if i < key {
                    assert(self.async_state.pending@[i] == before.async_state.pending@[i]);
                }
            }
        }
    }

    /// Queues a request for the checksum of the available version of `pkg`.
    /// Returns false, queuing nothing, when `pkg` has no available version.
    pub fn enq_verify(&mut self, pkg: &str) -> (r: bool)
        requires
            old(self).wf(),
            old(self).num_packages() < usize::MAX,
        ensures
            final(self).wf(),
            old(self).extends(&*final(self)),
            r == (old(self).knows(pkg@) && old(self).available_at(old(self).num_of(pkg@)) is Some),
            !r ==> *final(self) == *old(self),
            r ==> final(self).async_state.pending@.len() == old(self).async_state.pending@.len() + 1
                && final(self).async_state.pending@.take(old(self).async_state.pending@.len() as int)
                == old(self).async_state.pending@ && final(self).async_state.pending@.last().package_name@ == pkg@
                && final(self).async_state.pending@.last().version@ == old(self).available_at(
                old(self).num_of(pkg@),
            )->Some_0.text@,
    {
        let version = match self.get_available_debver(pkg) {
            Some(v) => v.to_string(),
            None => {
                return false;
            },
        };
        self.enq_verify_with_version(pkg, version.as_str());
        true
    }

    /// The available version of `pkg`, if it is known and has one.
    pub fn get_available_debver(&self, pkg: &str) -> (r: Option<&crate::debversion::DebianVersionNum>)
        requires
            self.wf(),
        ensures
            match r {
                Some(v) => self.knows(pkg@) && self.available_at(self.num_of(pkg@)) == Some(*v),
                None => !self.knows(pkg@) || self.available_at(self.num_of(pkg@)) is None,
            },
    {
        match self.get_package_num(pkg) {
            Some(p) => match &self.available_debvers[p] {
                Some(v) => Some(v),
                None => None,
            },
            None => None,
        }
    }

    /// What the answer with `status` and `body` to the request with `key` says:
    /// on 200, whether `body` is the recorded checksum (nothing if none is
    /// recorded); on any other status, an error naming the package and version.
    /// Nothing for a key that is not queued.
    pub fn verification_outcome(&self, key: usize, status: u32, body: &str) -> (r: Option<VerificationOutcome>)
        requires
            self.wf(),
        ensures
            key >= self.async_state.pending@.len() ==> r is None,
            key < self.async_state.pending@.len() ==> {
                let q = self.async_state.pending@[key as int];
                if status == 200 {
                    match self.md5sums@[q.package_num as int] {
                        Some(local) => r matches Some(VerificationOutcome::Checked { package_name, matches })
                            && package_name@ == q.package_name@ && matches == (body@ == local@),
                        None => r is None,
                    }
                } else {
                    r matches Some(VerificationOutcome::Failed { status: s, package_name, version }) && s == status
                        && package_name@ == q.package_name@ && version@ == q.version@
                }
            },
    {
        if key >= self.async_state.pending.len() {
            return None;
        }
        let q = &self.async_state.pending[key];
        if status == 200 {
            match &self.md5sums[q.package_num] {
                Some(local) => {
                    let received = String::from_str(body);
                    let matches = received == *local;
                    Some(VerificationOutcome::Checked { package_name: q.package_name.clone(), matches })
                },
                None => None,
            }
        } else {
            Some(
                VerificationOutcome::Failed {
                    status,
                    package_name: q.package_name.clone(),
                    version: q.version.clone(),
                },
            )
        }
    }

    /// Empties the queue once a batch has been sent.
    pub fn finish_batch(&mut self)
        requires
            old(self).wf(),
        ensures
            final(self).wf(),
            final(self).async_state.pending@.len() == 0,
            final(self).async_state.server == old(self).async_state.server,
            final(self).package_names == old(self).package_names,
            final(self).package_nums == old(self).package_nums,
            final(self).installed_debvers == old(self).installed_debvers,
            final(self).available_debvers == old(self).available_debvers,
            final(self).md5sums == old(self).md5sums,
            final(self).dependencies == old(self).dependencies,
    {
        self.async_state.pending = Vec::new();
    }
}

} // verus!
