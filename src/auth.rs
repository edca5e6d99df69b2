//! Access control: allowed peer addresses and credential pairs.

use vstd::prelude::*;
use crate::error::{ErrorKind, ServerError};
use crate::request::{opt_view, query_arg, ServerRequest};

verus! {

/// A peer address: IPv4 as its 32-bit value, IPv6 as its 128-bit value.
#[derive(Clone, Copy, Debug, PartialEq, Eq, Structural)]
pub enum IpAddress {
    V4(u32),
    V6(u128),
}

/// A username and password pair.
#[derive(Debug)]
pub struct Authentication {
    pub username: String,
    pub password: String,
}

impl View for Authentication {
    type V = (Seq<char>, Seq<char>);

    open spec fn view(&self) -> (Seq<char>, Seq<char>) {
        (self.username@, self.password@)
    }
}

/// The credentials a request carries in its `username` and `password` query
/// arguments; `None` when either is missing.
pub open spec fn request_credentials(query: Option<Seq<char>>) -> Option<(Seq<char>, Seq<char>)> {
    match query {
        Some(q) => match (query_arg(q, seq!['u', 's', 'e', 'r', 'n', 'a', 'm', 'e']), query_arg(q, seq!['p', 'a', 's', 's', 'w', 'o', 'r', 'd'])) {
            (Some(u), Some(p)) => Some((u, p)),
            _ => None,
        },
        None => None,
    }
}

impl Authentication {
    pub fn new(username: &str, password: &str) -> (r: Self)
        ensures
            r@ == (username@, password@),
    {
        Authentication { username: String::from_str(username), password: String::from_str(password) }
    }

    /// The credentials of a request; a missing argument fails as `Unauthorized`.
    pub fn from_request(request: &ServerRequest) -> (r: Result<Self, ServerError>)
        ensures
            match request_credentials(opt_view(request.query)) {
                Some(c) => r matches Ok(a) && a@ == c,
                None => r matches Err(e) && e.kind == ErrorKind::Unauthorized,
            },
    {
        let user_key = ['u', 's', 'e', 'r', 'n', 'a', 'm', 'e'];
        let pass_key = ['p', 'a', 's', 's', 'w', 'o', 'r', 'd'];
        let user_key = crate::text::string_of(&user_key);
        let pass_key = crate::text::string_of(&pass_key);
        let username = match request.query_argument(user_key.as_str()) {
            Ok(u) => u,
            Err(_) => return Err(ServerError::new(ErrorKind::Unauthorized, "Authentication failed")),
        };
        let password = match request.query_argument(pass_key.as_str()) {
            Ok(p) => p,
            Err(_) => return Err(ServerError::new(ErrorKind::Unauthorized, "Authentication failed")),
        };
        Ok(Authentication { username, password })
    }

    fn copy(&self) -> (r: Self)
        ensures
            r@ == self@,
    {
        Authentication { username: self.username.clone(), password: self.password.clone() }
    }
}

/// The allowed source addresses and credential pairs.
#[derive(Debug)]
pub struct AuthManager {
    pub allowed_addresses: Vec<IpAddress>,
    pub allowed_users: Vec<Authentication>,
}

/// The allow-lists as sets.
pub struct AccessView {
    pub addresses: Set<IpAddress>,
    pub users: Set<(Seq<char>, Seq<char>)>,
}

impl View for AuthManager {
    type V = AccessView;

    open spec fn view(&self) -> AccessView {
        AccessView {
            addresses: Set::new(|ip: IpAddress| self.allowed_addresses@.contains(ip)),
            users: Set::new(|u: (Seq<char>, Seq<char>)| exists|i: int| 0 <= i < self.allowed_users@.len() && (#[trigger] self.allowed_users@[i])@ == u),
        }
    }
}

impl AuthManager {
    /// Whether connections from `ip` are accepted.
    pub fn allows(&self, ip: IpAddress) -> (r: bool)
        ensures
            r == self@.addresses.contains(ip),
    {
        let mut i: usize = 0;
        while i < self.allowed_addresses.len()
            invariant
                i <= self.allowed_addresses@.len(),
                forall|j: int| 0 <= j < i ==> self.allowed_addresses@[j] != ip,
            decreases self.allowed_addresses.len() - i,
        {
            if self.allowed_addresses[i] == ip {
                return true;
            }
            i += 1;
        }
        false
    }

    /// Whether `user` is an allowed credential pair.
    pub fn authenticate(&self, user: &Authentication) -> (r: bool)
        ensures
            r == self@.users.contains(user@),
    {
        let mut i: usize = 0;
        while i < self.allowed_users.len()
            invariant
                i <= self.allowed_users@.len(),
                forall|j: int| 0 <= j < i ==> (#[trigger] self.allowed_users@[j])@ != user@,
            decreases self.allowed_users.len() - i,
        {
            let a = &self.allowed_users[i];
            if a.username == user.username && a.password == user.password {
                return true;
            }
            i += 1;
        }
        false
    }
}

/// Collects the allow-lists.
#[derive(Debug)]
pub struct AuthBuilder {
    pub auth: AuthManager,
}

impl AuthBuilder {
    /// Nothing allowed yet.
    pub fn new() -> (r: Self)
        ensures
            r.auth@.addresses == Set::<IpAddress>::empty(),
            r.auth@.users == Set::<(Seq<char>, Seq<char>)>::empty(),
    {
        let r = AuthBuilder { auth: AuthManager { allowed_addresses: Vec::new(), allowed_users: Vec::new() } };
        assert(r.auth@.addresses =~= Set::<IpAddress>::empty());
        assert(r.auth@.users =~= Set::<(Seq<char>, Seq<char>)>::empty());
        r
    }

    pub fn allow_address(&mut self, address: IpAddress)
        ensures
            final(self).auth@.addresses == old(self).auth@.addresses.insert(address),
            final(self).auth@.users == old(self).auth@.users,
    {
        let ghost before = self.auth.allowed_addresses@;
        self.auth.allowed_addresses.push(address);
        assert(self.auth@.addresses =~= old(self).auth@.addresses.insert(address)) by {
            assert forall|ip: IpAddress|
                #[trigger] self.auth@.addresses.contains(ip) <==> old(self).auth@.addresses.insert(address).contains(ip) by {
                if before.contains(ip) {
                    let k = choose|k: int| 0 <= k < before.len() && before[k] == ip;
                    assert(self.auth.allowed_addresses@[k] == ip);
                }
                if ip == address {
                    assert(self.auth.allowed_addresses@[before.len() as int] == ip);
                }
                if self.auth.allowed_addresses@.contains(ip) && ip != address {
                    let k = choose|k: int| 0 <= k < self.auth.allowed_addresses@.len() && self.auth.allowed_addresses@[k] == ip;
                    assert(before[k] == ip);
                }
            }
        }
        assert(self.auth@.users =~= old(self).auth@.users);
    }

    pub fn allow_user(&mut self, user: Authentication)
        ensures
            final(self).auth@.users == old(self).auth@.users.insert(user@),
            final(self).auth@.addresses == old(self).auth@.addresses,
    {
        let ghost before = self.auth.allowed_users@;
        let ghost u = user@;
        self.auth.allowed_users.push(user);
        let ghost after = self.auth.allowed_users@;
        assert(self.auth@.users =~= old(self).auth@.users.insert(u)) by {
            assert forall|x: (Seq<char>, Seq<char>)|
                #[trigger] self.auth@.users.contains(x) <==> old(self).auth@.users.insert(u).contains(x) by {
                if old(self).auth@.users.contains(x) {
                    let k = choose|k: int| 0 <= k < before.len() && (#[trigger] before[k])@ == x;
                    assert(after[k] == before[k]);
                }
                if x == u {
                    assert(after[before.len() as int]@ == x);
                }
                if self.auth@.users.contains(x) && x != u {
                    let k = choose|k: int| 0 <= k < after.len() && (#[trigger] after[k])@ == x;
                    assert(before[k] == after[k]);
                }
            }
        }
        assert(self.auth@.addresses =~= old(self).auth@.addresses);
    }

    /// The allow-lists collected so far.
    pub fn build(&self) -> (r: AuthManager)
        ensures
            r@.addresses == self.auth@.addresses,
            r@.users == self.auth@.users,
    {
        let mut addresses: Vec<IpAddress> = Vec::new();
        let mut users: Vec<Authentication> = Vec::new();
        let mut i: usize = 0;
        while i < self.auth.allowed_addresses.len()
            invariant
                i <= self.auth.allowed_addresses@.len(),
                addresses@ == self.auth.allowed_addresses@.take(i as int),
            decreases self.auth.allowed_addresses.len() - i,
        {
            addresses.push(self.auth.allowed_addresses[i]);
            assert(addresses@ =~= self.auth.allowed_addresses@.take(i + 1));
            i += 1;
        }
        let mut j: usize = 0;
        while j < self.auth.allowed_users.len()
            invariant
                j <= self.auth.allowed_users@.len(),
                users@.len() == j,
                forall|k: int| 0 <= k < j ==> (#[trigger] users@[k])@ == self.auth.allowed_users@[k]@,
            decreases self.auth.allowed_users.len() - j,
        {
            users.push(self.auth.allowed_users[j].copy());
            j += 1;
        }
        assert(addresses@ =~= self.auth.allowed_addresses@);
        let r = AuthManager { allowed_addresses: addresses, allowed_users: users };
        assert(r@.addresses =~= self.auth@.addresses);
        assert(r@.users =~= self.auth@.users) by {
            assert forall|x: (Seq<char>, Seq<char>)| r@.users.contains(x) <==> self.auth@.users.contains(x) by {
                if r@.users.contains(x) {
                    let k = choose|k: int| 0 <= k < users@.len() && (#[trigger] users@[k])@ == x;
                    assert(self.auth.allowed_users@[k]@ == x);
                }
                if self.auth@.users.contains(x) {
                    let k = choose|k: int| 0 <= k < self.auth.allowed_users@.len() && (#[trigger] self.auth.allowed_users@[k])@ == x;
                    assert(users@[k]@ == x);
                }
            }
        }
        r
    }
}

} // verus!
