//! What transport options, balance strings, certificate material and the legacy
//! format mean.

use std::collections::hash_map::DefaultHasher;

use vstd::prelude::*;
#[allow(unused_imports)]
use vstd::std_specs::hash::DefaultHasherAdditionalSpecFns;

use crate::conf::endpoint;
use crate::conf::endpoint::EndpointConfView;
use crate::conf::error::BuildErrorView;
use crate::conf::legacy;
use crate::conf::legacy::LegacyConfView;
use crate::conf::material;
use crate::conf::material::{Found, Material};
use crate::conf::options;
use crate::text;
use crate::text_laws;

verus! {

// ----------------------------------------------------------------- options --

/// An option is there exactly if it stands between two semicolons, with nothing
/// but white space around it.
pub proof fn law_option_stands_between_semicolons(s: Seq<char>, name: Seq<char>)
    ensures
        options::has_option(s, name) <==> exists|i: int|
            0 <= i < text::split(s, ';').len() && text::trim(#[trigger] text::split(s, ';')[i]) == name,
{
    let all = options::options(s);
    if options::has_option(s, name) {
        let i = all.index_of(name);
        assert(text::trim(text::split(s, ';')[i]) == name);
    }
    if exists|i: int| 0 <= i < text::split(s, ';').len() && text::trim(#[trigger] text::split(s, ';')[i]) == name {
        let i = choose|i: int|
            0 <= i < text::split(s, ';').len() && text::trim(#[trigger] text::split(s, ';')[i]) == name;
        assert(all[i] == name);
    }
}

proof fn lemma_first_named(opts: Seq<Seq<char>>, name: Seq<char>, i: int)
    requires
        0 <= i < opts.len(),
        name.is_prefix_of(opts[i]),
        forall|j: int| 0 <= j < i ==> !name.is_prefix_of(#[trigger] opts[j]),
    ensures
        options::first_named(opts, name) == Some(opts[i]),
    decreases i,
{
    lemma_prefix(opts[0], name);
    if i > 0 {
        let t = opts.drop_first();
        assert forall|j: int| 0 <= j < i - 1 implies !name.is_prefix_of(#[trigger] t[j]) by {
            assert(t[j] == opts[j + 1]);
        }
        assert(!name.is_prefix_of(opts[0]));
        lemma_first_named(t, name, i - 1);
    }
}

proof fn lemma_none_named(opts: Seq<Seq<char>>, name: Seq<char>)
    requires
        forall|j: int| 0 <= j < opts.len() ==> !name.is_prefix_of(#[trigger] opts[j]),
    ensures
        options::first_named(opts, name) is None,
    decreases opts.len(),
{
    if opts.len() > 0 {
        lemma_prefix(opts[0], name);
        let t = opts.drop_first();
        assert forall|j: int| 0 <= j < t.len() implies !name.is_prefix_of(#[trigger] t[j]) by {
            assert(t[j] == opts[j + 1]);
        }
        lemma_none_named(t, name);
    }
}

proof fn lemma_prefix(s: Seq<char>, name: Seq<char>)
    ensures
        text::begins_with(s, name) == name.is_prefix_of(s),
{
    if name.len() <= s.len() {
        assert(s.take(name.len() as int) =~= s.subrange(0, name.len() as int));
    }
}

/// The value of an option is what follows the first equals sign of the first one
/// that begins with its name, without the white space around it. Nothing there is
/// no value, and neither is an option without the sign.
pub proof fn law_value_follows_the_first_equals_sign(s: Seq<char>, name: Seq<char>, i: int, key: Seq<char>, value: Seq<char>)
    requires
        0 <= i < text::split(s, ';').len(),
        ({
            let o = text::trim(text::split(s, ';')[i]);
            &&& name.is_prefix_of(o)
            &&& o == key.push('=') + value || (o == key && value.len() == 0)
            &&& !key.contains('=')
        }),
        forall|j: int| 0 <= j < i ==> !name.is_prefix_of(text::trim(#[trigger] text::split(s, ';')[j])),
    ensures
        text::trim(value).len() > 0 ==> options::option_value(s, name) == Some(text::trim(value)),
        text::trim(value).len() == 0 ==> options::option_value(s, name) is None,
{
    let all = options::options(s);
    let o = text::trim(text::split(s, ';')[i]);
    assert(all[i] == o);
    assert forall|j: int| 0 <= j < i implies !name.is_prefix_of(#[trigger] all[j]) by {
        assert(all[j] == text::trim(text::split(s, ';')[j]));
    }
    lemma_first_named(all, name, i);
    text::lemma_first_at(o, '=');
    let at = text::first_at(o, '=');
    if o == key.push('=') + value {
        let k = key.len() as int;
        assert(o[k] == '=');
        if at < k {
            assert(key[at] == o[at]);
            assert(key.contains('='));
        }
        assert(at == k);
        assert(o.skip(at + 1) =~= value);
    } else {
        if at < o.len() {
            assert(key[at] == '=');
        }
        assert(value =~= Seq::empty());
        assert(text::trim(value) =~= Seq::empty());
    }
}

/// An option that nothing begins with the name of has no value.
pub proof fn law_absent_option_has_no_value(s: Seq<char>, name: Seq<char>)
    requires
        forall|j: int| 0 <= j < text::split(s, ';').len() ==> !name.is_prefix_of(
            text::trim(#[trigger] text::split(s, ';')[j]),
        ),
    ensures
        options::option_value(s, name) is None,
{
    let all = options::options(s);
    assert forall|j: int| 0 <= j < all.len() implies !name.is_prefix_of(#[trigger] all[j]) by {
        assert(all[j] == text::trim(text::split(s, ';')[j]));
    }
    lemma_none_named(all, name);
}

/// A websocket needs a host and a path on either side. Tls needs a certificate
/// with its key, or a server name, to listen, and the name to present to connect,
/// where a trust anchor and no verification exclude each other. Without either
/// there is nothing to be wrong with.
pub proof fn law_transport_options_that_are_needed(s: Seq<char>)
    ensures
        ({
            let ws = options::has_option(s, "ws"@);
            let tls = options::has_option(s, "tls"@);
            let placed = options::option_value(s, "host"@) is Some && options::option_value(s, "path"@) is Some;
            let keyed = options::option_value(s, "cert"@) is Some && options::option_value(s, "key"@) is Some;
            let named = options::option_value(s, "servername"@) is Some;
            let sni = options::option_value(s, "sni"@) is Some;
            let anchored = options::option_value(s, "ca"@) is Some;
            let insecure = options::has_option(s, "insecure"@);
            &&& options::listen_options_error(s) is None <==> (ws ==> placed) && (tls ==> keyed || named)
            &&& options::remote_options_error(s) is None <==> (ws ==> placed) && (tls ==> sni) && !(tls && anchored
                && insecure)
            &&& ws && !placed ==> options::listen_options_error(s) == Some("ws: require host and path"@)
            &&& ws && !placed ==> options::remote_options_error(s) == Some("ws: require host and path"@)
            &&& (ws ==> placed) && tls && !keyed && !named ==> options::listen_options_error(s) == Some(
                "tls: require cert and key or servername"@,
            )
            &&& (ws ==> placed) && tls && !sni ==> options::remote_options_error(s) == Some("tls: require sni"@)
            &&& (ws ==> placed) && tls && sni && anchored && insecure ==> options::remote_options_error(s) == Some(
                "tls: ca and insecure exclude each other"@,
            )
        }),
{
}

// ----------------------------------------------------------------- balance --

/// Whether a weight is a number below 256.
pub open spec fn is_weight(part: Seq<char>) -> bool {
    text::parsed_number(text::trim(part), 255) is Ok
}

/// Whether a weight is left blank.
pub open spec fn is_blank(part: Seq<char>) -> bool {
    text::trim(part).len() == 0
}

proof fn lemma_counts(parts: Seq<Seq<char>>)
    ensures
        endpoint::count_weights(parts) <= endpoint::count_given(parts) <= parts.len(),
        endpoint::count_weights(parts) == endpoint::count_given(parts) <==> forall|i: int|
            0 <= i < parts.len() ==> is_weight(#[trigger] parts[i]) || is_blank(parts[i]),
        (forall|i: int| 0 <= i < parts.len() ==> !is_blank(#[trigger] parts[i])) ==> endpoint::count_given(parts)
            == parts.len(),
        endpoint::count_given(parts) == 0 <==> forall|i: int| 0 <= i < parts.len() ==> is_blank(#[trigger] parts[i]),
    decreases parts.len(),
{
    if parts.len() > 0 {
        let t = parts.drop_last();
        lemma_counts(t);
        assert forall|i: int| 0 <= i < t.len() implies #[trigger] parts[i] == t[i] by {}
        let last = parts.last();
        assert(parts[parts.len() - 1] == last);
        let good = forall|i: int| 0 <= i < t.len() ==> is_weight(#[trigger] t[i]) || is_blank(t[i]);
        if good && (is_weight(last) || is_blank(last)) {
            assert forall|i: int| 0 <= i < parts.len() implies is_weight(#[trigger] parts[i]) || is_blank(parts[i]) by {
                if i < t.len() {
                    assert(parts[i] == t[i]);
                }
            }
        }
        if forall|i: int| 0 <= i < parts.len() ==> is_weight(#[trigger] parts[i]) || is_blank(parts[i]) {
            assert forall|i: int| 0 <= i < t.len() implies is_weight(#[trigger] t[i]) || is_blank(t[i]) by {
                assert(parts[i] == t[i]);
            }
        }
        if forall|i: int| 0 <= i < parts.len() ==> !is_blank(#[trigger] parts[i]) {
            assert forall|i: int| 0 <= i < t.len() implies !is_blank(#[trigger] t[i]) by {
                assert(parts[i] == t[i]);
            }
        }
        if forall|i: int| 0 <= i < parts.len() ==> is_blank(#[trigger] parts[i]) {
            assert forall|i: int| 0 <= i < t.len() implies is_blank(#[trigger] t[i]) by {
                assert(parts[i] == t[i]);
            }
        } else {
            let i = choose|i: int| 0 <= i < parts.len() && !is_blank(#[trigger] parts[i]);
            if i < t.len() {
                assert(!is_blank(t[i]));
            }
        }
        text_laws::law_only_digits_are_a_number(text::trim(last), 255);
    }
}

/// A balance string names a strategy, then a colon, then a weight for the remote
/// and one for each extra remote. With a strategy that balances it is good exactly
/// if every weight that is not blank is a number below 256, and there are as many
/// as remotes or none at all. With balancing off there is no weight. A strategy
/// that is not known is refused.
pub proof fn law_good_balance_has_a_weight_per_remote(
    s: Seq<char>,
    head: Seq<char>,
    tail: Seq<char>,
    extra: nat,
)
    requires
        s == head.push(':') + tail,
        !head.contains(':'),
        text::split(text::trim(tail), ',').len() <= 255,
    ensures
        ({
            let strategy = text::trim(head);
            let parts = text::split(text::trim(tail), ',');
            let numbers = forall|i: int| 0 <= i < parts.len() ==> is_weight(#[trigger] parts[i]) || is_blank(parts[i]);
            let full = forall|i: int| 0 <= i < parts.len() ==> !is_blank(#[trigger] parts[i]);
            let bare = forall|i: int| 0 <= i < parts.len() ==> is_blank(#[trigger] parts[i]);
            let balances = strategy == "iphash"@ || strategy == "roundrobin"@;
            let known = balances || strategy == "off"@;
            let e = endpoint::balance_error(s, extra);
            &&& !known ==> e == Some(
                "unknown strategy `"@ + strategy + "` (expected off, iphash or roundrobin)"@,
            )
            &&& known && bare ==> e is None
            &&& strategy == "off"@ && !bare ==> e == Some("contains an invalid weight"@)
            &&& balances && !numbers ==> e == Some("contains an invalid weight"@)
            &&& balances && numbers && full ==> (e is None <==> parts.len() == extra + 1)
        }),
{
    text::lemma_first_at(s, ':');
    let at = text::first_at(s, ':');
    let k = head.len() as int;
    assert(s[k] == ':');
    if at < k {
        assert(head[at] == ':');
        assert(head.contains(':'));
    }
    assert(s.take(at) =~= head);
    assert(s.skip(at + 1) =~= tail);
    let parts = text::split(text::trim(tail), ',');
    assert(endpoint::weights_of(s) == parts);
    lemma_counts(parts);
    text_laws::law_split_loses_nothing(text::trim(tail), ',');
    reveal_strlit("off");
    reveal_strlit("iphash");
    reveal_strlit("roundrobin");
    assert("iphash"@.len() != "off"@.len() && "roundrobin"@.len() != "off"@.len());
    if forall|i: int| 0 <= i < parts.len() ==> is_blank(#[trigger] parts[i]) {
        assert forall|i: int| 0 <= i < parts.len() implies is_weight(#[trigger] parts[i]) || is_blank(parts[i]) by {}
    }
}

/// A balance string with another number of weights than remotes says how many there
/// should be.
pub proof fn law_wrong_number_of_weights_is_told(s: Seq<char>, head: Seq<char>, tail: Seq<char>, extra: nat)
    requires
        s == head.push(':') + tail,
        !head.contains(':'),
        text::trim(head) == "iphash"@ || text::trim(head) == "roundrobin"@,
        forall|i: int| 0 <= i < text::split(text::trim(tail), ',').len() ==> is_weight(
            #[trigger] text::split(text::trim(tail), ',')[i],
        ),
        text::split(text::trim(tail), ',').len() <= 255,
        text::split(text::trim(tail), ',').len() != extra + 1,
    ensures
        endpoint::balance_error(s, extra) == Some(
            "expected "@ + text::decimal(extra + 1) + " weights for `remote` plus "@ + text::decimal(extra)
                + " `extra_remotes`, got "@ + text::decimal(text::split(text::trim(tail), ',').len()),
        ),
{
    let parts = text::split(text::trim(tail), ',');
    text::lemma_first_at(s, ':');
    let at = text::first_at(s, ':');
    let k = head.len() as int;
    assert(s[k] == ':');
    if at < k {
        assert(head[at] == ':');
        assert(head.contains(':'));
    }
    assert(s.take(at) =~= head);
    assert(s.skip(at + 1) =~= tail);
    assert(endpoint::weights_of(s) == parts);
    lemma_counts(parts);
    text_laws::law_split_loses_nothing(text::trim(tail), ',');
    assert forall|i: int| 0 <= i < parts.len() implies !is_blank(#[trigger] parts[i]) by {
        assert(is_weight(parts[i]));
        text_laws::law_only_digits_are_a_number(text::trim(parts[i]), 255);
    }
    reveal_strlit("off");
    reveal_strlit("iphash");
    reveal_strlit("roundrobin");
    assert("iphash"@.len() != "off"@.len() && "roundrobin"@.len() != "off"@.len());
}

/// A balance string without a colon is refused.
pub proof fn law_balance_needs_a_colon(s: Seq<char>, extra: nat)
    requires
        !s.contains(':'),
    ensures
        endpoint::balance_error(s, extra) == Some("expected `strategy: weight, ...`"@),
{
    text::lemma_first_at(s, ':');
    if text::first_at(s, ':') < s.len() {
        assert(s[text::first_at(s, ':')] == ':');
    }
}

// ---------------------------------------------------------------- material --

/// The bytes of a file as far as they count: none if it holds over a mebibyte.
pub open spec fn counted(read: Option<Vec<u8>>) -> Option<Seq<u8>> {
    if read is Some && read->0@.len() <= 1048576 {
        Some(read->0@)
    } else {
        None
    }
}

/// The file that an option of a side names, if that side asks for tls.
pub open spec fn file_of(side: Option<Seq<char>>, name: Seq<char>) -> Option<Seq<char>> {
    if side is Some && options::has_option(side->0, "tls"@) {
        options::option_value(side->0, name)
    } else {
        None
    }
}

/// Whether two readings agree on a file, as far as it counts.
pub open spec fn agree(file: Option<Seq<char>>, a: Option<Vec<u8>>, b: Option<Vec<u8>>) -> bool {
    file is Some ==> counted(a) == counted(b)
}

/// Whether the name of a file fits a machine.
pub open spec fn name_fits(file: Option<Seq<char>>) -> bool {
    file matches Some(path) ==> vstd::utf8::encode_utf8(path).len() <= u64::MAX
}

/// What is handed to the hasher for a rule is the same for two readings of its
/// files exactly if they agree on the certificate, the key and the trust anchor
/// that its transports name. So a change of any of them is seen, and nothing else
/// is.
pub proof fn law_rotation_of_any_named_file_is_seen(c: EndpointConfView, a: Material, b: Material)
    requires
        name_fits(file_of(c.listen_transport, "cert"@)),
        name_fits(file_of(c.listen_transport, "key"@)),
        name_fits(file_of(c.remote_transport, "ca"@)),
    ensures
        material::material_bytes(material::material_of(c, a)) == material::material_bytes(material::material_of(c, b))
            <==> {
            &&& agree(file_of(c.listen_transport, "cert"@), a.cert, b.cert)
            &&& agree(file_of(c.listen_transport, "key"@), a.key, b.key)
            &&& agree(file_of(c.remote_transport, "ca"@), a.ca, b.ca)
        },
{
    let x = material::material_of(c, a);
    let y = material::material_of(c, b);
    lemma_found(file_of(c.listen_transport, "cert"@), a.cert);
    lemma_found(file_of(c.listen_transport, "key"@), a.key);
    lemma_found(file_of(c.remote_transport, "ca"@), a.ca);
    lemma_found(file_of(c.listen_transport, "cert"@), b.cert);
    lemma_found(file_of(c.listen_transport, "key"@), b.key);
    lemma_found(file_of(c.remote_transport, "ca"@), b.ca);
    material::law_material_is_told_apart(x, y);
}

proof fn lemma_found(file: Option<Seq<char>>, read: Option<Vec<u8>>)
    requires
        name_fits(file),
    ensures
        ({
            let f = material::found(file, material::opt_bytes(read));
            &&& material::sizes_fit(f)
            &&& file is None ==> f is Absent
            &&& file matches Some(path) ==> f == match counted(read) {
                Some(contents) => Found::Read { path, contents },
                None => Found::Unreadable { path },
            }
        }),
{
}

/// A rule has a digest exactly if its transports name a file, and it is the hash
/// of what was found at all three options. The rest of the rule stays.
pub proof fn law_digest_covers_every_named_file(c: EndpointConfView, read: Material)
    ensures
        ({
            let r = material::refreshed_conf(c, read);
            let none = file_of(c.listen_transport, "cert"@) is None && file_of(c.listen_transport, "key"@) is None
                && file_of(c.remote_transport, "ca"@) is None;
            &&& none ==> r.material_digest is None
            &&& !none ==> r.material_digest == Some(
                DefaultHasher::spec_finish(seq![material::material_bytes(material::material_of(c, read))]),
            )
            &&& r == EndpointConfView { material_digest: r.material_digest, ..c }
        }),
{
}

// ------------------------------------------------------------------ legacy --

proof fn lemma_port_text(field: Seq<char>, n: u16)
    ensures
        legacy::port_of(field, text::decimal(n as nat)) == Ok::<u16, BuildErrorView>(n),
        !text::decimal(n as nat).contains('-'),
{
    let d = text::decimal(n as nat);
    text_laws::law_decimal_is_digits(n as nat);
    assert forall|i: int| 0 <= i < d.len() implies !text::is_white(#[trigger] d[i]) by {
        assert('0' <= d[i] && d[i] <= '9');
    }
    text_laws::law_trim_keeps_the_rest(d);
    text_laws::law_number_reads_back(n as nat, 65535);
    if d.contains('-') {
        let i = d.index_of('-');
        assert('0' <= d[i] && d[i] <= '9');
    }
}

/// A port stands for itself. Two with a dash between them stand for every port
/// from the first to the last, in order, and are refused if the last comes before
/// the first.
pub proof fn law_range_stands_for_its_ports(field: Seq<char>, first: u16, last: u16)
    ensures
        ({
            let one = legacy::ports_of(field, seq![text::decimal(first as nat)]);
            let many = legacy::ports_of(field, seq![text::decimal(first as nat).push('-') + text::decimal(last as nat)]);
            &&& one == Ok::<Seq<u16>, BuildErrorView>(seq![first])
            &&& first > last ==> many is Err
            &&& first <= last ==> {
                &&& many matches Ok(ports)
                &&& ports.len() == last - first + 1
                &&& forall|i: int| 0 <= i < ports.len() ==> #[trigger] ports[i] == first + i
            }
        }),
{
    let a = text::decimal(first as nat);
    let b = text::decimal(last as nat);
    let r = a.push('-') + b;
    lemma_port_text(field, first);
    lemma_port_text(field, last);
    text::lemma_first_at(a, '-');
    if text::first_at(a, '-') < a.len() {
        assert(a.contains('-'));
    }
    assert(a.take(a.len() as int) =~= a);
    text::lemma_first_at(r, '-');
    let at = text::first_at(r, '-');
    assert(r[a.len() as int] == '-');
    if at < a.len() {
        assert(a[at] == '-');
        assert(a.contains('-'));
    }
    assert(r.take(at) =~= a);
    assert(r.skip(at + 1) =~= b);
    reveal_with_fuel(legacy::ports_of, 2);
    let none = Seq::<Seq<char>>::empty();
    assert(seq![a].drop_last() =~= none);
    assert(seq![r].drop_last() =~= none);
    assert(Seq::<u16>::empty() + legacy::ports_between(first, first) =~= seq![first]);
    if first <= last {
        assert(Seq::<u16>::empty() + legacy::ports_between(first, last) =~= legacy::ports_between(first, last));
    }
}

/// The ports of two lists of ranges one after the other are those of the first and
/// then those of the second.
pub proof fn law_ranges_stand_one_after_the_other(field: Seq<char>, a: Seq<Seq<char>>, b: Seq<Seq<char>>)
    ensures
        legacy::ports_of(field, a) is Ok && legacy::ports_of(field, b) is Ok ==> legacy::ports_of(field, a + b) == Ok::<
            Seq<u16>,
            BuildErrorView,
        >(legacy::ports_of(field, a)->Ok_0 + legacy::ports_of(field, b)->Ok_0),
        legacy::ports_of(field, a) is Err ==> legacy::ports_of(field, a + b) == legacy::ports_of(field, a),
        legacy::ports_of(field, a) is Ok && legacy::ports_of(field, b) is Err ==> legacy::ports_of(field, a + b)
            == legacy::ports_of(field, b),
    decreases b.len(),
{
    if b.len() == 0 {
        assert(a + b =~= a);
        if legacy::ports_of(field, a) is Ok {
            let p = legacy::ports_of(field, a)->Ok_0;
            assert(p + Seq::<u16>::empty() =~= p);
        }
    } else {
        law_ranges_stand_one_after_the_other(field, a, b.drop_last());
        assert((a + b).drop_last() =~= a + b.drop_last());
        assert((a + b).last() == b.last());
        if legacy::ports_of(field, a) is Ok && legacy::ports_of(field, b) is Ok {
            let p = legacy::ports_of(field, a)->Ok_0;
            let q = legacy::ports_of(field, b.drop_last())->Ok_0;
            let (x, y) = legacy::range_of(field, b.last())->Ok_0;
            let t = legacy::ports_between(x, y);
            assert(p + q + t =~= p + (q + t));
        }
    }
}

/// The item of a list at a position, or the first if the list is too short.
pub open spec fn item_or_first<T>(s: Seq<T>, i: int) -> T {
    if i < s.len() {
        s[i]
    } else {
        s[0]
    }
}

/// A legacy configuration means one rule for each listening port, in order. It
/// listens on the address at that position with that port, and forwards to the
/// remote address and remote port there. A list of addresses or remote ports that
/// is too short stands in with its first item. Nothing else is set.
pub proof fn law_legacy_rules_pair_addresses_and_ports(c: LegacyConfView, i: int)
    requires
        legacy::rules_of(c) is Ok,
        0 <= i < legacy::rules_of(c)->Ok_0.len(),
    ensures
        ({
            let rule = legacy::rules_of(c)->Ok_0[i];
            let listen = legacy::ports_of("listening_ports"@, c.listen_ports)->Ok_0;
            let remote = legacy::ports_of("remote_ports"@, c.remote_ports)->Ok_0;
            &&& legacy::rules_of(c)->Ok_0.len() == listen.len()
            &&& rule.listen == item_or_first(c.listen_addrs, i) + ":"@ + text::decimal(listen[i] as nat)
            &&& rule.remote == item_or_first(c.remote_addrs, i) + ":"@ + text::decimal(item_or_first(remote, i) as nat)
            &&& rule.extra_remotes.len() == 0
            &&& rule.balance is None && rule.through is None
            &&& rule.interface is None && rule.listen_interface is None
            &&& rule.listen_transport is None && rule.remote_transport is None
            &&& rule.update_drain_timeout is None && rule.delete_drain_timeout is None
            &&& rule.network.no_tcp is None && rule.network.use_udp is None
            &&& rule.material_digest is None
        }),
{
}

/// A legacy configuration is refused exactly if a port or a range is bad, or if it
/// has no listening port, no remote port, or no address on either side.
pub proof fn law_legacy_configuration_needs_ports_and_addresses(c: LegacyConfView)
    ensures
        legacy::rules_of(c) is Ok <==> {
            &&& legacy::ports_of("listening_ports"@, c.listen_ports) matches Ok(listen) && listen.len() > 0
            &&& legacy::ports_of("remote_ports"@, c.remote_ports) matches Ok(remote) && remote.len() > 0
            &&& c.listen_addrs.len() > 0
            &&& c.remote_addrs.len() > 0
        },
{
}

/// A port that is no number is refused under its field with what is written and
/// why, and so is a range that ends before it starts.
pub proof fn law_bad_ports_say_why(field: Seq<char>, s: Seq<char>, first: u16, last: u16)
    ensures
        text::parsed_number(text::trim(s), 65535) matches Err(e) ==> legacy::port_of(field, s) == Err::<
            u16,
            BuildErrorView,
        >(BuildErrorView { field, value: s, reason: "not a valid port: "@ + text::number_error_text(e) }),
        first > last ==> {
            let range = text::decimal(first as nat).push('-') + text::decimal(last as nat);
            legacy::ports_of(field, seq![range]) == Err::<Seq<u16>, BuildErrorView>(
                BuildErrorView { field, value: range, reason: "port range ends before it starts"@ },
            )
        },
{
    let a = text::decimal(first as nat);
    let b = text::decimal(last as nat);
    let r = a.push('-') + b;
    lemma_port_text(field, first);
    lemma_port_text(field, last);
    text::lemma_first_at(r, '-');
    let at = text::first_at(r, '-');
    assert(r[a.len() as int] == '-');
    if at < a.len() {
        assert(a[at] == '-');
        assert(a.contains('-'));
    }
    assert(r.take(at) =~= a);
    assert(r.skip(at + 1) =~= b);
    reveal_with_fuel(legacy::ports_of, 2);
    assert(seq![r].drop_last() =~= Seq::<Seq<char>>::empty());
}

/// A legacy configuration is refused for its first fault: a bad listening port, a
/// bad remote port, then what is missing to listen, then what is missing to
/// forward.
pub proof fn law_legacy_configuration_is_refused_for_its_first_fault(c: LegacyConfView)
    ensures
        ({
            let r = legacy::rules_of(c);
            let listen = legacy::ports_of("listening_ports"@, c.listen_ports);
            let remote = legacy::ports_of("remote_ports"@, c.remote_ports);
            let missing = |field: Seq<char>, what: Seq<char>|
                Err::<Seq<EndpointConfView>, BuildErrorView>(BuildErrorView { field, value: ""@, reason: what });
            &&& listen matches Err(e) ==> r == Err::<Seq<EndpointConfView>, BuildErrorView>(e)
            &&& listen is Ok ==> (remote matches Err(e) ==> r == Err::<Seq<EndpointConfView>, BuildErrorView>(e))
            &&& listen is Ok && remote is Ok ==> {
                let ports = listen->Ok_0.len() > 0;
                let addrs = c.listen_addrs.len() > 0;
                &&& !ports ==> r == missing("listening_addresses"@, "no port given"@)
                &&& ports && !addrs ==> r == missing("listening_addresses"@, "no address given"@)
                &&& ports && addrs && remote->Ok_0.len() == 0 ==> r == missing("remote_addresses"@, "no port given"@)
                &&& ports && addrs && remote->Ok_0.len() > 0 && c.remote_addrs.len() == 0 ==> r == missing(
                    "remote_addresses"@,
                    "no address given"@,
                )
            }
        }),
{
}

} // verus!
