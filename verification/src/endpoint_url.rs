use vstd::prelude::*;

verus! {

/// A validated RPC endpoint address, tagged by the scheme its text
/// begins with. The tag is derived once, at construction; the original
/// text is kept unchanged inside the variant.
#[derive(Debug)]
pub enum EndpointUrl {
    Http(String),
    Https(String),
    Ws(String),
    Wss(String),
}

/// Rejection of a URL whose text begins with none of the four
/// recognized schemes.
#[derive(Debug, Clone)]
pub struct InvalidUrl {
    /// The text that was offered.
    pub url: String,
}

/// True when `s` begins with `p`.
pub open spec fn spec_starts_with(s: Seq<char>, p: Seq<char>) -> bool {
    p.len() <= s.len() && s.subrange(0, p.len() as int) == p
}

/// True when `s` begins with one of the four recognized schemes.
pub open spec fn spec_url_scheme_ok(s: Seq<char>) -> bool {
    ||| spec_starts_with(s, "wss://"@)
    ||| spec_starts_with(s, "ws://"@)
    ||| spec_starts_with(s, "https://"@)
    ||| spec_starts_with(s, "http://"@)
}

impl EndpointUrl {
    /// The tag is the one the text's scheme prefix derives: what
    /// construction by `parse` guarantees.
    pub open spec fn wf(&self) -> bool {
        &&& (*self is Wss <==> spec_starts_with(self.spec_text(), "wss://"@))
        &&& (*self is Ws <==> spec_starts_with(self.spec_text(), "ws://"@))
        &&& (*self is Https <==> spec_starts_with(self.spec_text(), "https://"@))
        &&& (*self is Http <==> spec_starts_with(self.spec_text(), "http://"@))
    }

    /// The text of the URL, with the tag dropped.
    pub open spec fn spec_text(&self) -> Seq<char> {
        match self {
            EndpointUrl::Http(s) => s@,
            EndpointUrl::Https(s) => s@,
            EndpointUrl::Ws(s) => s@,
            EndpointUrl::Wss(s) => s@,
        }
    }

    /// Tag and text together, for equality of two urls.
    pub open spec fn spec_eq(&self, other: &EndpointUrl) -> bool {
        &&& self.spec_text() == other.spec_text()
        &&& (self is Http <==> other is Http)
        &&& (self is Https <==> other is Https)
        &&& (self is Ws <==> other is Ws)
        &&& (self is Wss <==> other is Wss)
    }

    /// Derive the scheme tag of `s`. Fails exactly when `s` begins with
    /// none of the four recognized schemes; on success the original text
    /// is kept whole, so rendering it back yields `s` again.
    pub fn parse(s: &str) -> (r: Result<EndpointUrl, InvalidUrl>)
        ensures
            r is Ok <==> spec_url_scheme_ok(s@),
            match r {
                Ok(u) => {
                    &&& u.spec_text() == s@
                    &&& (u is Wss <==> spec_starts_with(s@, "wss://"@))
                    &&& (u is Ws <==> spec_starts_with(s@, "ws://"@))
                    &&& (u is Https <==> spec_starts_with(s@, "https://"@))
                    &&& (u is Http <==> spec_starts_with(s@, "http://"@))
                },
                Err(e) => e.url@ == s@,
            },
    {
        proof {
            lemma_schemes_mutually_exclusive(s@);
        }
        if str_starts_with(s, "wss://") {
            Ok(EndpointUrl::Wss(s.to_owned()))
        } else if str_starts_with(s, "ws://") {
            Ok(EndpointUrl::Ws(s.to_owned()))
        } else if str_starts_with(s, "https://") {
            Ok(EndpointUrl::Https(s.to_owned()))
        } else if str_starts_with(s, "http://") {
            Ok(EndpointUrl::Http(s.to_owned()))
        } else {
            Err(InvalidUrl { url: s.to_owned() })
        }
    }

    /// The text of the URL, exactly as it was offered to `parse`.
    pub fn text(&self) -> (r: &String)
        ensures
            r@ == self.spec_text(),
    {
        match self {
            EndpointUrl::Http(s) => s,
            EndpointUrl::Https(s) => s,
            EndpointUrl::Ws(s) => s,
            EndpointUrl::Wss(s) => s,
        }
    }

    /// True for the secure transports, `https` and `wss`.
    pub fn is_secure(&self) -> (r: bool)
        ensures
            r == (self is Https || self is Wss),
    {
        match self {
            EndpointUrl::Https(_) => true,
            EndpointUrl::Wss(_) => true,
            _ => false,
        }
    }
}

impl Clone for EndpointUrl {
    fn clone(&self) -> (r: Self)
        ensures
            r == *self,
    {
        match self {
            EndpointUrl::Http(s) => EndpointUrl::Http(s.clone()),
            EndpointUrl::Https(s) => EndpointUrl::Https(s.clone()),
            EndpointUrl::Ws(s) => EndpointUrl::Ws(s.clone()),
            EndpointUrl::Wss(s) => EndpointUrl::Wss(s.clone()),
        }
    }
}

impl PartialEq for EndpointUrl {
    fn eq(&self, other: &Self) -> (r: bool) {
        match (self, other) {
            (EndpointUrl::Http(a), EndpointUrl::Http(b)) => *a == *b,
            (EndpointUrl::Https(a), EndpointUrl::Https(b)) => *a == *b,
            (EndpointUrl::Ws(a), EndpointUrl::Ws(b)) => *a == *b,
            (EndpointUrl::Wss(a), EndpointUrl::Wss(b)) => *a == *b,
            _ => false,
        }
    }
}

impl Eq for EndpointUrl {}

impl vstd::std_specs::cmp::PartialEqSpecImpl for EndpointUrl {
    open spec fn obeys_eq_spec() -> bool {
        true
    }

    open spec fn eq_spec(&self, other: &EndpointUrl) -> bool {
        self.spec_eq(other)
    }
}

/// True when `s` begins with `p`, compared character by character.
pub fn str_starts_with(s: &str, p: &str) -> (r: bool)
    ensures
        r == spec_starts_with(s@, p@),
{
    let n = p.unicode_len();
    if n > s.unicode_len() {
        assert(!spec_starts_with(s@, p@));
        return false;
    }
    let mut i: usize = 0;
    while i < n
        invariant
            0 <= i <= n,
            n == p@.len(),
            n <= s@.len(),
            forall|k: int| 0 <= k < i ==> s@[k] == p@[k],
        decreases n - i,
    {
        if s.get_char(i) != p.get_char(i) {
            assert(!spec_starts_with(s@, p@)) by {
                if spec_starts_with(s@, p@) {
                    assert(s@.subrange(0, n as int)[i as int] == p@[i as int]);
                }
            }
            return false;
        }
        i += 1;
    }
    assert(s@.subrange(0, n as int) =~= p@);
    true
}

/// No text begins with two of the four schemes at once: the four prefix
/// tests are mutually exclusive, so the tag is derived deterministically
/// whatever order they are tried in.
pub proof fn lemma_schemes_mutually_exclusive(s: Seq<char>)
    ensures
        spec_starts_with(s, "wss://"@) ==> !spec_starts_with(s, "ws://"@)
            && !spec_starts_with(s, "https://"@) && !spec_starts_with(s, "http://"@),
        spec_starts_with(s, "ws://"@) ==> !spec_starts_with(s, "https://"@)
            && !spec_starts_with(s, "http://"@),
        spec_starts_with(s, "https://"@) ==> !spec_starts_with(s, "http://"@),
{
    reveal_strlit("wss://");
    reveal_strlit("ws://");
    reveal_strlit("https://");
    reveal_strlit("http://");
    if spec_starts_with(s, "wss://"@) {
        assert(s.subrange(0, 6)[2] == 's');
        if spec_starts_with(s, "ws://"@) {
            assert(s.subrange(0, 5)[2] == ':');
            assert(s[2] == 's' && s[2] == ':');
        }
        if spec_starts_with(s, "https://"@) {
            assert(s.subrange(0, 8)[0] == 'h');
            assert(s[0] == 'w' && s[0] == 'h');
        }
        if spec_starts_with(s, "http://"@) {
            assert(s.subrange(0, 7)[0] == 'h');
            assert(s[0] == 'w' && s[0] == 'h');
        }
    }
    if spec_starts_with(s, "ws://"@) {
        assert(s.subrange(0, 5)[0] == 'w');
        if spec_starts_with(s, "https://"@) {
            assert(s.subrange(0, 8)[0] == 'h');
            assert(s[0] == 'w' && s[0] == 'h');
        }
        if spec_starts_with(s, "http://"@) {
            assert(s.subrange(0, 7)[0] == 'h');
            assert(s[0] == 'w' && s[0] == 'h');
        }
    }
    if spec_starts_with(s, "https://"@) && spec_starts_with(s, "http://"@) {
        assert(s.subrange(0, 8)[4] == 's');
        assert(s.subrange(0, 7)[4] == ':');
        assert(s[4] == 's' && s[4] == ':');
    }
}

} // verus!
