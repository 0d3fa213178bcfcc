//! Parsed urls and the canonical key of a url: host without `www.`, the port
//! when it is not the scheme's default, and the lower-cased path without
//! trailing or doubled slashes.

use vstd::prelude::*;

use crate::vocabulary::lower_of;

verus! {

/// What the url parser gives for a text: the serialization, the host, the
/// port when it is not the scheme's default, and the path; `None` when the
/// text is not a url.
pub uninterp spec fn url_parts(input: Seq<char>) -> Option<
    (Seq<char>, Option<Seq<char>>, Option<u16>, Seq<char>),
>;

pub open spec fn opt_view(s: Option<String>) -> Option<Seq<char>> {
    match s {
        Some(x) => Some(x@),
        None => None,
    }
}

pub open spec fn parts_view(r: Option<(String, Option<String>, Option<u16>, String)>) -> Option<
    (Seq<char>, Option<Seq<char>>, Option<u16>, Seq<char>),
> {
    match r {
        Some(p) => Some((p.0@, opt_view(p.1), p.2, p.3@)),
        None => None,
    }
}

/// Relies on `url::Url::parse`, then reads the parsed value through
/// `as_str`, `host_str`, `port` and `path`: the parts depend on the text alone.
#[verifier::external_body]
fn parse_parts(input: &str) -> (r: Option<(String, Option<String>, Option<u16>, String)>)
    ensures
        parts_view(r) == url_parts(input@),
{
    match url::Url::parse(input) {
        Ok(u) => Some(
            (u.as_str().to_owned(), u.host_str().map(|h| h.to_owned()), u.port(), u.path().to_owned()),
        ),
        Err(_) => None,
    }
}

/// A parsed url.
pub struct Url {
    pub serialization: String,
    pub host: Option<String>,
    /// The port, when it is not the default one of the scheme.
    pub port: Option<u16>,
    pub path: String,
}

impl Url {
    pub open spec fn parts(&self) -> (Seq<char>, Option<Seq<char>>, Option<u16>, Seq<char>) {
        (self.serialization@, opt_view(self.host), self.port, self.path@)
    }

    /// Parses a url; `Err(())` when the text is not one.
    pub fn parse(input: &str) -> (r: Result<Url, ()>)
        ensures
            match r {
                Ok(u) => url_parts(input@) == Some(u.parts()),
                Err(_) => url_parts(input@) is None,
            },
    {
        match parse_parts(input) {
            Some(p) => Ok(Url { serialization: p.0, host: p.1, port: p.2, path: p.3 }),
            None => Err(()),
        }
    }

    /// The url as text.
    pub fn as_str(&self) -> (r: &str)
        ensures
            r@ == self.serialization@,
    {
        self.serialization.as_str()
    }
}

/// `s` without every leading `www.`.
pub open spec fn strip_www(s: Seq<char>) -> Seq<char>
    decreases s.len(),
{
    if s.len() >= 4 && s[0] == 'w' && s[1] == 'w' && s[2] == 'w' && s[3] == '.' {
        strip_www(s.skip(4))
    } else {
        s
    }
}

/// `s` without its trailing slashes.
pub open spec fn trim_slashes(s: Seq<char>) -> Seq<char>
    decreases s.len(),
{
    if s.len() > 0 && s.last() == '/' {
        trim_slashes(s.drop_last())
    } else {
        s
    }
}

/// `s` with each run of slashes made one slash.
pub open spec fn collapse_slashes(s: Seq<char>) -> Seq<char>
    decreases s.len(),
{
    if s.len() == 0 {
        s
    } else {
        let c = collapse_slashes(s.drop_last());
        if s.last() == '/' && c.len() > 0 && c.last() == '/' {
            c
        } else {
            c.push(s.last())
        }
    }
}

pub open spec fn digit(d: nat) -> char {
    if d == 0 {
        '0'
    } else if d == 1 {
        '1'
    } else if d == 2 {
        '2'
    } else if d == 3 {
        '3'
    } else if d == 4 {
        '4'
    } else if d == 5 {
        '5'
    } else if d == 6 {
        '6'
    } else if d == 7 {
        '7'
    } else if d == 8 {
        '8'
    } else {
        '9'
    }
}

/// Decimal digits of `n`, without leading zeros.
pub open spec fn decimal(n: nat) -> Seq<char>
    decreases n,
{
    if n < 10 {
        seq![digit(n)]
    } else {
        decimal(n / 10).push(digit(n % 10))
    }
}

/// The key of a url with these parts.
pub open spec fn key_text(host: Option<Seq<char>>, port: Option<u16>, path: Seq<char>) -> Seq<
    char,
> {
    let h = match host {
        Some(h) => strip_www(h),
        None => Seq::empty(),
    };
    let p = match port {
        Some(p) => seq![':'] + decimal(p as nat),
        None => Seq::empty(),
    };
    h + p + collapse_slashes(lower_of(trim_slashes(path)))
}

/// The digit as a one-character string.
fn digit_str(d: u16) -> (r: &'static str)
    requires
        d < 10,
    ensures
        r@ == seq![digit(d as nat)],
{
    if d == 0 {
        proof { reveal_strlit("0"); }
        "0"
    } else if d == 1 {
        proof { reveal_strlit("1"); }
        "1"
    } else if d == 2 {
        proof { reveal_strlit("2"); }
        "2"
    } else if d == 3 {
        proof { reveal_strlit("3"); }
        "3"
    } else if d == 4 {
        proof { reveal_strlit("4"); }
        "4"
    } else if d == 5 {
        proof { reveal_strlit("5"); }
        "5"
    } else if d == 6 {
        proof { reveal_strlit("6"); }
        "6"
    } else if d == 7 {
        proof { reveal_strlit("7"); }
        "7"
    } else if d == 8 {
        proof { reveal_strlit("8"); }
        "8"
    } else {
        proof { reveal_strlit("9"); }
        "9"
    }
}

/// The decimal text of a port number.
fn port_text(n: u16) -> (r: String)
    ensures
        r@ == decimal(n as nat),
    decreases n,
{
    if n < 10 {
        digit_str(n).to_owned()
    } else {
        let mut s = port_text(n / 10);
        s.append(digit_str(n % 10));
        s
    }
}

/// The host without its leading `www.`s.
fn strip_www_exec(host: &str) -> (r: String)
    ensures
        r@ == strip_www(host@),
{
    let n = host.unicode_len();
    let mut start: usize = 0;
    assert(host@.skip(0) =~= host@);
    while n - start >= 4 && host.get_char(start) == 'w' && host.get_char(start + 1) == 'w'
        && host.get_char(start + 2) == 'w' && host.get_char(start + 3) == '.'
        invariant
            n == host@.len(),
            start <= n,
            strip_www(host@) == strip_www(host@.skip(start as int)),
        decreases n - start,
    {
        assert(host@.skip(start as int).skip(4) =~= host@.skip(start as int + 4));
        start = start + 4;
    }
    host.substring_char(start, n).to_owned()
}

/// The path without trailing slashes, lower-cased, with runs of slashes made one.
fn normalize_path(path: &str) -> (r: String)
    ensures
        r@ == collapse_slashes(lower_of(trim_slashes(path@))),
{
    let n = path.unicode_len();
    let mut end: usize = n;
    assert(path@.take(n as int) =~= path@);
    while end > 0 && path.get_char(end - 1) == '/'
        invariant
            n == path@.len(),
            end <= n,
            trim_slashes(path@) == trim_slashes(path@.take(end as int)),
        decreases end,
    {
        assert(path@.take(end as int).drop_last() =~= path@.take(end as int - 1));
        end = end - 1;
    }
    let lower = crate::vocabulary::lowercase(path.substring_char(0, end));
    proof {
        assert(path@.subrange(0, end as int) =~= path@.take(end as int));
    }
    let m = lower.unicode_len();
    let mut out = String::new();
    let mut slash = false;
    let mut i: usize = 0;
    proof {
        assert(lower@.take(0) =~= Seq::<char>::empty());
    }
    while i < m
        invariant
            m == lower@.len(),
            i <= m,
            out@ == collapse_slashes(lower@.take(i as int)),
            slash == (out@.len() > 0 && out@.last() == '/'),
        decreases m - i,
    {
        let c = lower.get_char(i);
        assert(lower@.take(i as int + 1).drop_last() =~= lower@.take(i as int));
        if !(c == '/' && slash) {
            let piece = lower.as_str().substring_char(i, i + 1);
            assert(piece@ =~= seq![c]);
            out.append(piece);
            slash = c == '/';
        }
        i = i + 1;
    }
    assert(lower@.take(m as int) =~= lower@);
    out
}

/// A canonical key, stable across spellings of the same url.
pub struct Key(pub String);

impl Key {
    /// A key taken as it is.
    pub fn from_string(string: String) -> (r: Key)
        ensures
            r.0 == string,
    {
        Key(string)
    }

    /// The key of a url: its host without leading `www.`, `:port` when the
    /// port is not the scheme's default, and its path lower-cased, without
    /// trailing slashes and with runs of slashes made one.
    pub fn from(url: Url) -> (r: Key)
        ensures
            r.0@ == key_text(opt_view(url.host), url.port, url.path@),
    {
        let mut value = match &url.host {
            Some(h) => strip_www_exec(h.as_str()),
            None => String::new(),
        };
        match url.port {
            Some(p) => {
                proof { reveal_strlit(":"); }
                value.append(":");
                let digits = port_text(p);
                value.append(digits.as_str());
            },
            None => {},
        }
        let path = normalize_path(url.path.as_str());
        value.append(path.as_str());
        proof {
            let h = match url.host {
                Some(h) => strip_www(h@),
                None => Seq::empty(),
            };
            let p = match url.port {
                Some(p) => seq![':'] + decimal(p as nat),
                None => Seq::empty(),
            };
            assert(value@ =~= h + p + collapse_slashes(lower_of(trim_slashes(url.path@))));
        }
        Key(value)
    }

    pub fn as_str(&self) -> (r: &str)
        ensures
            r@ == self.0@,
    {
        self.0.as_str()
    }
}

} // verus!
