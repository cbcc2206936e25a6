//! Certificate material a transport names, and its digest.

use std::collections::hash_map::DefaultHasher;
use std::hash::Hasher;

use vstd::bytes::*;
use vstd::prelude::*;
use vstd::string::*;
#[allow(unused_imports)]
use vstd::std_specs::hash::DefaultHasherAdditionalSpecFns;

use crate::conf::endpoint::{EndpointConf, EndpointConfView};
use crate::conf::options;
use crate::conf::options::named_material;

verus! {

/// Largest piece of certificate material that is read for the digest.
///
/// A certificate, a key or a whole trust bundle is small. Anything past this cap
/// is digested as unreadable.
pub const MAX_MATERIAL_BYTES: u64 = 1048576;

/// The files a rule's transports name: certificate and key on the listen side,
/// trust anchor on the remote side.
#[derive(Debug)]
pub struct MaterialPaths {
    pub cert: Option<String>,
    pub key: Option<String>,
    pub ca: Option<String>,
}

/// What was read of those files; absent where a file cannot be read.
#[derive(Debug)]
pub struct Material {
    pub cert: Option<Vec<u8>>,
    pub key: Option<Vec<u8>>,
    pub ca: Option<Vec<u8>>,
}

/// What is found at one certificate option.
#[verifier::ext_equal]
pub enum Found {
    /// the transport does not carry the option
    Absent,
    /// the path was read
    Read { path: Seq<char>, contents: Seq<u8> },
    /// the path could not be read, or holds more than the cap allows
    Unreadable { path: Seq<char> },
}

/// The contents of a file as far as they count: none past the cap.
pub open spec fn within_cap(read: Option<Seq<u8>>) -> Option<Seq<u8>> {
    match read {
        Some(bytes) => if bytes.len() <= MAX_MATERIAL_BYTES {
            Some(bytes)
        } else {
            None
        },
        None => None,
    }
}

pub open spec fn opt_bytes(v: Option<Vec<u8>>) -> Option<Seq<u8>> {
    match v {
        Some(v) => Some(v@),
        None => None,
    }
}

/// What is found at an option that names `path`, when `read` is what its file holds.
pub open spec fn found(path: Option<Seq<char>>, read: Option<Seq<u8>>) -> Found {
    match path {
        None => Found::Absent,
        Some(path) => match within_cap(read) {
            Some(contents) => Found::Read { path, contents },
            None => Found::Unreadable { path },
        },
    }
}

/// What is found at the three options of a rule.
pub open spec fn material_of(c: EndpointConfView, read: Material) -> (Found, Found, Found) {
    (
        found(options::material_path(c.listen_transport, "cert"@), opt_bytes(read.cert)),
        found(options::material_path(c.listen_transport, "key"@), opt_bytes(read.key)),
        found(options::material_path(c.remote_transport, "ca"@), opt_bytes(read.ca)),
    )
}

/// Bytes with their number in front.
pub open spec fn framed(bytes: Seq<u8>) -> Seq<u8> {
    spec_u64_to_le_bytes(bytes.len() as u64) + bytes
}

/// What the digest is taken of, for one option.
pub open spec fn found_bytes(f: Found) -> Seq<u8> {
    match f {
        Found::Absent => seq![0u8],
        Found::Read { path, contents } => seq![1u8] + framed(vstd::utf8::encode_utf8(path)) + framed(contents),
        Found::Unreadable { path } => seq![2u8] + framed(vstd::utf8::encode_utf8(path)),
    }
}

/// What the digest is taken of.
pub open spec fn material_bytes(m: (Found, Found, Found)) -> Seq<u8> {
    found_bytes(m.0) + found_bytes(m.1) + found_bytes(m.2)
}

/// The digest; none where no option names any material.
pub open spec fn digest_of(m: (Found, Found, Found)) -> Option<u64> {
    if m.0 is Absent && m.1 is Absent && m.2 is Absent {
        None
    } else {
        Some(DefaultHasher::spec_finish(seq![material_bytes(m)]))
    }
}

/// A rule after its material was looked at.
pub open spec fn refreshed_conf(c: EndpointConfView, read: Material) -> EndpointConfView {
    EndpointConfView { material_digest: digest_of(material_of(c, read)), ..c }
}

fn push_bytes(out: &mut Vec<u8>, bytes: &[u8])
    ensures
        final(out)@ == old(out)@ + bytes@,
{
    let mut i: usize = 0;
    while i < bytes.len()
        invariant
            i <= bytes@.len(),
            out@ == old(out)@ + bytes@.take(i as int),
        decreases bytes@.len() - i,
    {
        out.push(bytes[i]);
        i = i + 1;
        assert(bytes@.take(i as int) =~= bytes@.take(i - 1).push(bytes@[i - 1]));
    }
    assert(bytes@.take(i as int) =~= bytes@);
}

fn push_framed(out: &mut Vec<u8>, bytes: &[u8])
    ensures
        final(out)@ == old(out)@ + framed(bytes@),
{
    let n = u64_to_le_bytes(bytes.len() as u64);
    push_bytes(out, n.as_slice());
    push_bytes(out, bytes);
    assert(out@ =~= old(out)@ + framed(bytes@));
}

fn push_found(out: &mut Vec<u8>, path: &Option<String>, read: &Option<Vec<u8>>)
    ensures
        final(out)@ == old(out)@ + found_bytes(found(crate::text::opt_text(*path), opt_bytes(*read))),
{
    let path = match path {
        Some(path) => path,
        None => {
            out.push(0u8);
            assert(out@ =~= old(out)@ + seq![0u8]);
            return ;
        },
    };
    let contents = match read {
        Some(bytes) => if bytes.len() as u64 <= MAX_MATERIAL_BYTES {
            Some(bytes)
        } else {
            None
        },
        None => None,
    };
    match contents {
        Some(bytes) => {
            out.push(1u8);
            push_framed(out, path.as_str().as_bytes());
            push_framed(out, bytes.as_slice());
            assert(out@ =~= old(out)@ + (seq![1u8] + framed(vstd::utf8::encode_utf8(path@)) + framed(bytes@)));
        },
        None => {
            out.push(2u8);
            push_framed(out, path.as_str().as_bytes());
            assert(out@ =~= old(out)@ + (seq![2u8] + framed(vstd::utf8::encode_utf8(path@))));
        },
    }
}

impl EndpointConf {
    /// The files whose contents the rule depends on.
    ///
    /// The transport options are read as they are when the transport is made;
    /// without tls they are not looked at.
    pub fn material_paths(&self) -> (r: MaterialPaths)
        ensures
            crate::text::opt_text(r.cert) == options::material_path(self@.listen_transport, "cert"@),
            crate::text::opt_text(r.key) == options::material_path(self@.listen_transport, "key"@),
            crate::text::opt_text(r.ca) == options::material_path(self@.remote_transport, "ca"@),
    {
        MaterialPaths {
            cert: named_material(&self.listen_transport, "cert"),
            key: named_material(&self.listen_transport, "key"),
            ca: named_material(&self.remote_transport, "ca"),
        }
    }

    /// Digest of the certificate material this rule's transports name.
    ///
    /// Each path is digested together with its contents, and a path that cannot
    /// be read is marked as such: material appearing, disappearing or moving to
    /// another file is a change just as much as a change to its bytes.
    pub fn digest_material(&self, read: &Material) -> (r: Option<u64>)
        ensures
            r == digest_of(material_of(self@, *read)),
    {
        let paths = self.material_paths();
        if paths.cert.is_none() && paths.key.is_none() && paths.ca.is_none() {
            return None;
        }
        let mut bytes: Vec<u8> = Vec::new();
        push_found(&mut bytes, &paths.cert, &read.cert);
        push_found(&mut bytes, &paths.key, &read.key);
        push_found(&mut bytes, &paths.ca, &read.ca);
        assert(bytes@ =~= material_bytes(material_of(self@, *read)));
        let mut hasher = DefaultHasher::new();
        hasher.write(bytes.as_slice());
        assert(hasher@ =~= seq![material_bytes(material_of(self@, *read))]);
        Some(hasher.finish())
    }

    /// Fold the current material into the rule, so that a rotation in place is a
    /// difference.
    pub fn refresh(&mut self, read: &Material)
        ensures
            final(self)@ == refreshed_conf(old(self)@, *read),
    {
        let digest = self.digest_material(read);
        self.material_digest = digest;
    }
}

// --------------------------------------------------------------------- laws --

proof fn lemma_framed(a: Seq<u8>, x: Seq<u8>, b: Seq<u8>, y: Seq<u8>)
    requires
        a.len() <= u64::MAX,
        b.len() <= u64::MAX,
        framed(a) + x == framed(b) + y,
    ensures
        a == b,
        x == y,
{
    lemma_auto_spec_u64_to_from_le_bytes();
    let s = framed(a) + x;
    let t = framed(b) + y;
    let p = spec_u64_to_le_bytes(a.len() as u64);
    let q = spec_u64_to_le_bytes(b.len() as u64);
    assert(s.take(8) =~= p);
    assert(t.take(8) =~= q);
    assert(spec_u64_from_le_bytes(p) == spec_u64_from_le_bytes(q));
    assert(a.len() == b.len());
    assert(s.subrange(8, 8 + a.len() as int) =~= a);
    assert(t.subrange(8, 8 + b.len() as int) =~= b);
    assert(s.skip(8 + a.len() as int) =~= x);
    assert(t.skip(8 + b.len() as int) =~= y);
}

/// Whether the sizes of a finding fit a machine.
pub open spec fn sizes_fit(f: Found) -> bool {
    match f {
        Found::Absent => true,
        Found::Read { path, contents } => vstd::utf8::encode_utf8(path).len() <= u64::MAX && contents.len()
            <= u64::MAX,
        Found::Unreadable { path } => vstd::utf8::encode_utf8(path).len() <= u64::MAX,
    }
}

proof fn lemma_found(a: Found, x: Seq<u8>, b: Found, y: Seq<u8>)
    requires
        sizes_fit(a),
        sizes_fit(b),
        found_bytes(a) + x == found_bytes(b) + y,
    ensures
        a == b,
        x == y,
{
    let s = found_bytes(a) + x;
    let t = found_bytes(b) + y;
    assert(s[0] == found_bytes(a)[0]);
    assert(t[0] == found_bytes(b)[0]);
    let r = s.skip(1);
    match a {
        Found::Absent => {
            assert(b is Absent);
            assert(r =~= x);
            assert(r =~= y);
        },
        Found::Read { path, contents } => {
            assert(b is Read);
            let p = vstd::utf8::encode_utf8(path);
            let q = vstd::utf8::encode_utf8(b->Read_path);
            assert(r =~= framed(p) + (framed(contents) + x));
            assert(r =~= framed(q) + (framed(b->contents) + y));
            lemma_framed(p, framed(contents) + x, q, framed(b->contents) + y);
            lemma_framed(contents, x, b->contents, y);
            vstd::utf8::encode_utf8_decode_utf8(path);
            vstd::utf8::encode_utf8_decode_utf8(b->Read_path);
        },
        Found::Unreadable { path } => {
            assert(b is Unreadable);
            let p = vstd::utf8::encode_utf8(path);
            let q = vstd::utf8::encode_utf8(b->Unreadable_path);
            assert(r =~= framed(p) + x);
            assert(r =~= framed(q) + y);
            lemma_framed(p, x, q, y);
            vstd::utf8::encode_utf8_decode_utf8(path);
            vstd::utf8::encode_utf8_decode_utf8(b->Unreadable_path);
        },
    }
}

/// What is handed to the hasher tells any two states of the material apart:
/// another path, other bytes, a file that cannot be read, an empty file and an
/// absent option never look the same to it.
pub proof fn law_material_is_told_apart(a: (Found, Found, Found), b: (Found, Found, Found))
    requires
        sizes_fit(a.0) && sizes_fit(a.1) && sizes_fit(a.2),
        sizes_fit(b.0) && sizes_fit(b.1) && sizes_fit(b.2),
    ensures
        material_bytes(a) == material_bytes(b) <==> a == b,
{
    if material_bytes(a) == material_bytes(b) {
        let none = Seq::<u8>::empty();
        let x = found_bytes(a.1) + found_bytes(a.2);
        let y = found_bytes(b.1) + found_bytes(b.2);
        assert(material_bytes(a) =~= found_bytes(a.0) + x);
        assert(material_bytes(b) =~= found_bytes(b.0) + y);
        lemma_found(a.0, x, b.0, y);
        lemma_found(a.1, found_bytes(a.2), b.1, found_bytes(b.2));
        assert(found_bytes(a.2) =~= found_bytes(a.2) + none);
        assert(found_bytes(b.2) =~= found_bytes(b.2) + none);
        lemma_found(a.2, none, b.2, none);
    }
}

/// Refreshing changes nothing of the configuration document, and a rule that
/// names no material is the same refreshed or not.
pub proof fn law_refresh_keeps_the_document(c: EndpointConfView, read: Material)
    ensures
        <EndpointConf as crate::lifecycle::plan::EndpointSource>::document(refreshed_conf(c, read))
            == <EndpointConf as crate::lifecycle::plan::EndpointSource>::document(c),
        options::material_path(c.listen_transport, "cert"@) is None && options::material_path(
            c.listen_transport,
            "key"@,
        ) is None && options::material_path(c.remote_transport, "ca"@) is None && c.material_digest is None
            ==> refreshed_conf(c, read) == c,
{
}

/// Refreshing again with the same material gives the same rule.
pub proof fn law_same_material_same_rule(c: EndpointConfView, one: Material, other: Material)
    requires
        material_of(c, one) == material_of(c, other),
    ensures
        refreshed_conf(refreshed_conf(c, one), other) == refreshed_conf(c, one),
{
}

} // verus!
