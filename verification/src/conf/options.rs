//! Transport options: `name;name=value;...`.

use vstd::prelude::*;
use vstd::string::*;

use crate::text::{chars_of, find_char, has_prefix, same_chars, slice, split_chars, string_of, trim_chars};

verus! {

/// The options of a string, each without the white space around it.
pub open spec fn options(s: Seq<char>) -> Seq<Seq<char>> {
    crate::text::split(s, ';').map_values(|p: Seq<char>| crate::text::trim(p))
}

/// Whether an option is given.
pub open spec fn has_option(s: Seq<char>, name: Seq<char>) -> bool {
    options(s).contains(name)
}

/// The first option that begins with a name.
pub open spec fn first_named(opts: Seq<Seq<char>>, name: Seq<char>) -> Option<Seq<char>>
    decreases opts.len(),
{
    if opts.len() == 0 {
        None
    } else if crate::text::begins_with(opts[0], name) {
        Some(opts[0])
    } else {
        first_named(opts.drop_first(), name)
    }
}

/// What stands after the first equals sign, without the white space around it;
/// nothing if there is no sign or nothing after it.
pub open spec fn value_of(option: Seq<char>) -> Option<Seq<char>> {
    let at = crate::text::first_at(option, '=');
    if at >= option.len() {
        None
    } else {
        let v = crate::text::trim(option.skip(at + 1));
        if v.len() == 0 {
            None
        } else {
            Some(v)
        }
    }
}

/// The value of the first option that begins with a name.
pub open spec fn option_value(s: Seq<char>, name: Seq<char>) -> Option<Seq<char>> {
    match first_named(options(s), name) {
        Some(o) => value_of(o),
        None => None,
    }
}

/// Take a transport string apart.
pub fn parse_options(s: &str) -> (r: Vec<Vec<char>>)
    ensures
        crate::text::pieces(r@) == options(s@),
{
    let parts = split_chars(&chars_of(s), ';');
    let mut r: Vec<Vec<char>> = Vec::new();
    let mut i: usize = 0;
    while i < parts.len()
        invariant
            i <= parts@.len(),
            crate::text::pieces(parts@) == crate::text::split(s@, ';'),
            r@.len() == i,
            forall|j: int| 0 <= j < i ==> (#[trigger] r@[j])@ == crate::text::trim(parts@[j]@),
        decreases parts@.len() - i,
    {
        r.push(trim_chars(&parts[i]));
        i = i + 1;
    }
    proof {
        let want = options(s@);
        assert(crate::text::pieces(r@).len() == want.len());
        assert forall|j: int| 0 <= j < want.len() implies crate::text::pieces(r@)[j] == want[j] by {
            assert(crate::text::pieces(parts@)[j] == parts@[j]@);
            assert(r@[j]@ == crate::text::trim(parts@[j]@));
        }
        assert(crate::text::pieces(r@) =~= want);
    }
    r
}

/// Whether an option is among those of a list.
pub fn has_opt(opts: &Vec<Vec<char>>, name: &str) -> (r: bool)
    ensures
        r == crate::text::pieces(opts@).contains(name@),
{
    let ghost all = crate::text::pieces(opts@);
    let mut i: usize = 0;
    while i < opts.len()
        invariant
            i <= opts@.len(),
            all == crate::text::pieces(opts@),
            forall|j: int| 0 <= j < i ==> #[trigger] all[j] != name@,
        decreases opts@.len() - i,
    {
        if same_chars(&opts[i], name) {
            assert(all[i as int] == name@);
            return true;
        }
        i = i + 1;
    }
    false
}

/// The value of the first option of a list that begins with a name.
pub fn get_opt(opts: &Vec<Vec<char>>, name: &str) -> (r: Option<String>)
    ensures
        crate::text::opt_text(r) == match first_named(crate::text::pieces(opts@), name@) {
            Some(o) => value_of(o),
            None => None,
        },
{
    let ghost all = crate::text::pieces(opts@);
    let mut i: usize = 0;
    assert(all.skip(0) =~= all);
    while i < opts.len()
        invariant
            i <= opts@.len(),
            all == crate::text::pieces(opts@),
            first_named(all, name@) == first_named(all.skip(i as int), name@),
        decreases opts@.len() - i,
    {
        let o = &opts[i];
        assert(all[i as int] == o@);
        if has_prefix(o, name) {
            let at = find_char(o, '=');
            if at >= o.len() {
                return None;
            }
            let rest = slice(o, at + 1, o.len());
            assert(rest@ =~= o@.skip(at + 1));
            let v = trim_chars(&rest);
            if v.len() == 0 {
                return None;
            }
            return Some(string_of(&v));
        }
        assert(all.skip(i as int).drop_first() =~= all.skip(i + 1));
        i = i + 1;
    }
    None
}

/// What is wrong with the options of a listen transport.
pub open spec fn listen_options_error(s: Seq<char>) -> Option<Seq<char>> {
    if has_option(s, "ws"@) && (option_value(s, "host"@) is None || option_value(s, "path"@) is None) {
        Some("ws: require host and path"@)
    } else if has_option(s, "tls"@) && !(option_value(s, "cert"@) is Some && option_value(s, "key"@) is Some)
        && option_value(s, "servername"@) is None {
        Some("tls: require cert and key or servername"@)
    } else {
        None
    }
}

/// What is wrong with the options of a remote transport.
pub open spec fn remote_options_error(s: Seq<char>) -> Option<Seq<char>> {
    if has_option(s, "ws"@) && (option_value(s, "host"@) is None || option_value(s, "path"@) is None) {
        Some("ws: require host and path"@)
    } else if has_option(s, "tls"@) && option_value(s, "sni"@) is None {
        Some("tls: require sni"@)
    } else if has_option(s, "tls"@) && option_value(s, "ca"@) is Some && has_option(s, "insecure"@) {
        Some("tls: ca and insecure exclude each other"@)
    } else {
        None
    }
}

/// Whether a transport string asks for anything.
pub open spec fn asks_for_transport(s: Option<Seq<char>>) -> bool {
    s matches Some(s) && (has_option(s, "ws"@) || has_option(s, "tls"@))
}

/// Check the options of a listen transport.
pub fn check_listen_options(s: &str) -> (r: Option<&'static str>)
    ensures
        match r {
            Some(e) => listen_options_error(s@) == Some(e@),
            None => listen_options_error(s@) is None,
        },
{
    let opts = parse_options(s);
    if has_opt(&opts, "ws") && (get_opt(&opts, "host").is_none() || get_opt(&opts, "path").is_none()) {
        return Some("ws: require host and path");
    }
    if has_opt(&opts, "tls") && !(get_opt(&opts, "cert").is_some() && get_opt(&opts, "key").is_some()) && get_opt(
        &opts,
        "servername",
    ).is_none() {
        return Some("tls: require cert and key or servername");
    }
    None
}

/// Check the options of a remote transport.
pub fn check_remote_options(s: &str) -> (r: Option<&'static str>)
    ensures
        match r {
            Some(e) => remote_options_error(s@) == Some(e@),
            None => remote_options_error(s@) is None,
        },
{
    let opts = parse_options(s);
    if has_opt(&opts, "ws") && (get_opt(&opts, "host").is_none() || get_opt(&opts, "path").is_none()) {
        return Some("ws: require host and path");
    }
    if has_opt(&opts, "tls") {
        if get_opt(&opts, "sni").is_none() {
            return Some("tls: require sni");
        }
        if get_opt(&opts, "ca").is_some() && has_opt(&opts, "insecure") {
            return Some("tls: ca and insecure exclude each other");
        }
    }
    None
}

/// Whether a transport string asks for anything.
pub fn has_transport(s: &Option<String>) -> (r: bool)
    ensures
        r == asks_for_transport(crate::text::opt_text(*s)),
{
    match s {
        Some(s) => {
            let opts = parse_options(s.as_str());
            has_opt(&opts, "ws") || has_opt(&opts, "tls")
        },
        None => false,
    }
}

/// The file an option names, if the transport loads it: only with tls.
pub open spec fn material_path(s: Option<Seq<char>>, name: Seq<char>) -> Option<Seq<char>> {
    match s {
        Some(s) => if has_option(s, "tls"@) {
            option_value(s, name)
        } else {
            None
        },
        None => None,
    }
}

/// The file an option names, if the transport loads it.
pub fn named_material(s: &Option<String>, name: &str) -> (r: Option<String>)
    ensures
        crate::text::opt_text(r) == material_path(crate::text::opt_text(*s), name@),
{
    match s {
        Some(s) => {
            let opts = parse_options(s.as_str());
            if has_opt(&opts, "tls") {
                get_opt(&opts, name)
            } else {
                None
            }
        },
        None => None,
    }
}

} // verus!
