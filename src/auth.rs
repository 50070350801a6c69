use vstd::prelude::*;

use crate::paste::Paste;
use crate::registry::{live, resolves, Registry};

verus! {

/// Which protected action a password page leads on to.
#[derive(Clone, Copy, Debug, PartialEq, Eq, Structural)]
pub enum AuthPath {
    Upload,
    Raw,
    EditPrivate,
    SecureFile,
    Remove,
}

/// The route segment of each action.
pub open spec fn route_of(p: AuthPath) -> Seq<char> {
    match p {
        AuthPath::Upload => seq!['u', 'p', 'l', 'o', 'a', 'd'],
        AuthPath::Raw => seq!['r', 'a', 'w'],
        AuthPath::EditPrivate => seq!['e', 'd', 'i', 't', '_', 'p', 'r', 'i', 'v', 'a', 't', 'e'],
        AuthPath::SecureFile => seq!['s', 'e', 'c', 'u', 'r', 'e', '_', 'f', 'i', 'l', 'e'],
        AuthPath::Remove => seq!['r', 'e', 'm', 'o', 'v', 'e'],
    }
}

/// The stored encrypted key of `p`, or the empty string where it has none.
pub open spec fn key_or_empty(p: Paste) -> Seq<char> {
    match p.encrypted_key {
        Some(k) => k@,
        None => Seq::empty(),
    }
}

impl AuthPath {
    pub fn route(&self) -> (r: &'static str)
        ensures
            r@ == route_of(*self),
    {
        match self {
            AuthPath::Upload => {
                let r = "upload";
                proof {
                    reveal_strlit("upload");
                    assert(r@ =~= route_of(*self));
                }
                r
            },
            AuthPath::Raw => {
                let r = "raw";
                proof {
                    reveal_strlit("raw");
                    assert(r@ =~= route_of(*self));
                }
                r
            },
            AuthPath::EditPrivate => {
                let r = "edit_private";
                proof {
                    reveal_strlit("edit_private");
                    assert(r@ =~= route_of(*self));
                }
                r
            },
            AuthPath::SecureFile => {
                let r = "secure_file";
                proof {
                    reveal_strlit("secure_file");
                    assert(r@ =~= route_of(*self));
                }
                r
            },
            AuthPath::Remove => {
                let r = "remove";
                proof {
                    reveal_strlit("remove");
                    assert(r@ =~= route_of(*self));
                }
                r
            },
        }
    }
}

/// What a password page shows for a paste.
pub struct AuthPage {
    /// The slug the page was asked for.
    pub id: String,
    /// A status message, possibly empty.
    pub status: String,
    /// The paste's encrypted key, or empty.
    pub encrypted_key: String,
    pub encrypt_client: bool,
    pub path: AuthPath,
}

/// Resolves `slug` after a sweep at `now` and gathers what the password page
/// for `path` shows; `None` where no live paste answers to `slug`.
pub fn auth_page(registry: &mut Registry, slug: &str, status: &str, path: AuthPath, now: u64) -> (r: Option<
    AuthPage,
>)
    requires
        old(registry).wf(),
    ensures
        final(registry).wf(),
        final(registry).contents() == live(old(registry).contents(), now),
        final(registry).codec_view() == old(registry).codec_view(),
        final(registry).last_issued() == old(registry).last_issued(),
        ({
            let ps = final(registry).contents();
            let c = final(registry).codec_view();
            &&& r is None <==> resolves(c, ps, slug@, None)
            &&& r matches Some(pg) ==> exists|i: usize|
                resolves(c, ps, slug@, Some(i)) && pg.id@ == slug@ && pg.status@ == status@
                    && pg.encrypted_key@ == key_or_empty(ps[i as int]) && pg.encrypt_client == ps[i as int].encrypt_client
                    && pg.path == path
        }),
{
    let found = registry.find_by_slug(slug, now);
    match found {
        None => None,
        Some(i) => {
            let p = registry.get(i);
            let encrypted_key = match &p.encrypted_key {
                Some(k) => k.clone(),
                None => String::new(),
            };
            Some(
                AuthPage {
                    id: String::from_str(slug),
                    status: String::from_str(status),
                    encrypted_key,
                    encrypt_client: p.encrypt_client,
                    path,
                },
            )
        },
    }
}

} // verus!
