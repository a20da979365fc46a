//! Presentation helpers at the image edge: deterministic placeholder
//! images as data URIs, avatar attachment, background-prompt selection and
//! image-size normalization. Actual image synthesis is a collaborator and
//! lives outside this engine.

use base64::Engine;
use vstd::prelude::*;
use vstd::string::StringSliceAdditionalSpecFns;

use crate::text::{str_concat, str_eq, str_trim, trim_of, u64_dec_string};
use crate::types::{keys_unique, GenerateRequest, MovieTemplate};

verus! {

/// The standard base64 alphabet encoding of a byte sequence.
pub uninterp spec fn base64_std_of(bytes: Seq<u8>) -> Seq<char>;

/// Relies on `base64::engine::general_purpose::STANDARD`: the standard
/// base64 rendering of the bytes. The result depends on the bytes alone.
#[verifier::external_body]
fn base64_encode(bytes: &[u8]) -> (r: String)
    ensures
        r@ == base64_std_of(bytes@),
{
    base64::engine::general_purpose::STANDARD.encode(bytes)
}

/// A data URI carrying the given SVG document.
pub fn svg_to_data_uri(svg: &str) -> (r: String)
    ensures
        r@ == "data:image/svg+xml;base64,"@ + base64_std_of(svg.spec_bytes()),
{
    let b64 = base64_encode(svg.as_bytes());
    str_concat("data:image/svg+xml;base64,", b64.as_str())
}

/// A deterministic placeholder background image for a title and synopsis,
/// rendered as an SVG data URI.
pub fn fallback_background_data_uri(title: &str, synopsis: &str) -> (r: String)
    ensures
        r@.len() >= 26,
        r@.subrange(0, 26) == "data:image/svg+xml;base64,"@,
{
    let tt = str_trim(title);
    let ts = str_trim(synopsis);
    let s1 = str_concat(tt.as_str(), "::");
    let seeded = str_concat(s1.as_str(), ts.as_str());
    let seed = crate::text::simple_hash_u32(seeded.as_str());
    let h1 = seed % 360;
    let h2 = (((seed as u64) * 3) % 360) as u32;
    let h3 = (((seed as u64) * 7) % 360) as u32;
    let p1 = str_concat(
        "<svg xmlns='http://www.w3.org/2000/svg' width='1024' height='1024' viewBox='0 0 1024 1024'><defs><linearGradient id='g' x1='0' y1='0' x2='1' y2='1'><stop offset='0%' stop-color='hsl(",
        u64_dec_string(h1 as u64).as_str(),
    );
    let p2 = str_concat(p1.as_str(), " 85% 55%)' stop-opacity='0.95'/><stop offset='55%' stop-color='hsl(");
    let p3 = str_concat(p2.as_str(), u64_dec_string(h2 as u64).as_str());
    let p4 = str_concat(p3.as_str(), " 85% 55%)' stop-opacity='0.75'/><stop offset='100%' stop-color='hsl(");
    let p5 = str_concat(p4.as_str(), u64_dec_string(h3 as u64).as_str());
    let p6 = str_concat(
        p5.as_str(),
        " 85% 50%)' stop-opacity='0.95'/></linearGradient><filter id='blur' x='-20%' y='-20%' width='140%' height='140%'><feGaussianBlur stdDeviation='38'/></filter></defs><rect width='1024' height='1024' fill='url(#g)'/><g filter='url(#blur)'><circle cx='260' cy='280' r='240' fill='white' opacity='0.14'/><circle cx='780' cy='360' r='280' fill='white' opacity='0.10'/><circle cx='520' cy='820' r='320' fill='black' opacity='0.10'/></g><rect width='1024' height='1024' fill='black' opacity='0.22'/></svg>",
    );
    let r = svg_to_data_uri(p6.as_str());
    proof {
        reveal_strlit("data:image/svg+xml;base64,");
        assert(r@.subrange(0, 26) =~= "data:image/svg+xml;base64,"@);
    }
    r
}

/// A deterministic placeholder avatar for a display name, rendered as an
/// SVG data URI.
pub fn fallback_avatar_data_uri(name: &str) -> (r: String)
    ensures
        r@.len() >= 26,
        r@.subrange(0, 26) == "data:image/svg+xml;base64,"@,
{
    let tn = str_trim(name);
    let seed = crate::text::simple_hash_u32(tn.as_str());
    let h1 = seed % 360;
    let h2 = (((seed as u64) * 5) % 360) as u32;
    let p1 = str_concat(
        "<svg xmlns='http://www.w3.org/2000/svg' width='512' height='512' viewBox='0 0 512 512'><defs><radialGradient id='rg' cx='35%' cy='30%' r='80%'><stop offset='0%' stop-color='hsl(",
        u64_dec_string(h1 as u64).as_str(),
    );
    let p2 = str_concat(p1.as_str(), " 90% 65%)' stop-opacity='1'/><stop offset='65%' stop-color='hsl(");
    let p3 = str_concat(p2.as_str(), u64_dec_string(h2 as u64).as_str());
    let p4 = str_concat(
        p3.as_str(),
        " 90% 55%)' stop-opacity='1'/></radialGradient></defs><rect width='512' height='512' rx='256' fill='url(#rg)'/><g opacity='0.92'><circle cx='256' cy='210' r='86' fill='rgba(255,255,255,0.92)'/><path d='M128 446c18-86 78-134 128-134s110 48 128 134' fill='rgba(255,255,255,0.92)'/></g><rect width='512' height='512' rx='256' fill='rgba(0,0,0,0.18)'/></svg>",
    );
    let r = svg_to_data_uri(p4.as_str());
    proof {
        reveal_strlit("data:image/svg+xml;base64,");
        assert(r@.subrange(0, 26) =~= "data:image/svg+xml;base64,"@);
    }
    r
}

/// The prompt to hand the background synthesizer: the first nonblank among
/// the graph's synopsis, the request's synopsis, theme and free text, and
/// finally the graph's title (trimmed in every case).
pub open spec fn picked_prompt(req: GenerateRequest, t: MovieTemplate) -> Seq<char> {
    if trim_of(t.meta.synopsis@).len() > 0 {
        trim_of(t.meta.synopsis@)
    } else if (match req.synopsis {
        Some(s) => trim_of(s@).len() > 0,
        None => false,
    }) {
        trim_of(req.synopsis->Some_0@)
    } else if (match req.theme {
        Some(s) => trim_of(s@).len() > 0,
        None => false,
    }) {
        trim_of(req.theme->Some_0@)
    } else if (match req.free_input {
        Some(s) => trim_of(s@).len() > 0,
        None => false,
    }) {
        trim_of(req.free_input->Some_0@)
    } else {
        trim_of(t.title@)
    }
}

/// Pick the background prompt; the graph's own synopsis wins.
pub fn pick_background_prompt(req: &GenerateRequest, t: &MovieTemplate) -> (r: String)
    ensures
        r@ == picked_prompt(*req, *t),
{
    let from_template = str_trim(t.meta.synopsis.as_str());
    if !from_template.as_str().is_empty() {
        return from_template;
    }
    match &req.synopsis {
        Some(s) => {
            let tv = str_trim(s.as_str());
            if !tv.as_str().is_empty() {
                return tv;
            }
        },
        None => {},
    }
    match &req.theme {
        Some(s) => {
            let tv = str_trim(s.as_str());
            if !tv.as_str().is_empty() {
                return tv;
            }
        },
        None => {},
    }
    match &req.free_input {
        Some(s) => {
            let tv = str_trim(s.as_str());
            if !tv.as_str().is_empty() {
                return tv;
            }
        },
        None => {},
    }
    str_trim(t.title.as_str())
}

/// The accepted image sizes; anything else falls back to the square.
pub open spec fn cogview_size_of(raw: Option<&str>) -> Seq<char> {
    let tv = match raw {
        Some(s) => trim_of(s@),
        None => Seq::<char>::empty(),
    };
    if tv == "1024x1024"@ || tv == "864x1152"@ || tv == "1152x864"@ {
        tv
    } else {
        "1024x1024"@
    }
}

/// Normalize a requested image size to one of the known values.
pub fn normalize_cogview_size(raw: Option<&str>) -> (r: String)
    ensures
        r@ == cogview_size_of(raw),
{
    let tv = match raw {
        Some(s) => str_trim(s),
        None => String::new(),
    };
    proof {
        assert(trim_of(Seq::<char>::empty()) =~= Seq::<char>::empty());
    }
    if str_eq(tv.as_str(), "1024x1024") || str_eq(tv.as_str(), "864x1152") || str_eq(
        tv.as_str(),
        "1152x864",
    ) {
        tv
    } else {
        "1024x1024".to_owned()
    }
}

/// Whether an avatar slot is effectively empty.
pub open spec fn avatar_blank(p: Option<String>) -> bool {
    match p {
        Some(s) => trim_of(s@).len() == 0,
        None => true,
    }
}

fn avatar_is_blank(p: &Option<String>) -> (r: bool)
    ensures
        r == avatar_blank(*p),
{
    match p {
        Some(s) => {
            let tv = str_trim(s.as_str());
            tv.as_str().is_empty()
        },
        None => true,
    }
}

/// Attach an avatar to the first cast entry whose name matches, when that
/// entry has no avatar yet; everything else is untouched.
pub fn attach_avatar_to_template(t: &mut MovieTemplate, protagonist_name: &str, avatar: String)
    requires
        old(t).wf(),
    ensures
        final(t).wf(),
        final(t).nodes == old(t).nodes,
        final(t).endings == old(t).endings,
        final(t).meta == old(t).meta,
        final(t).title == old(t).title,
        final(t).project_id == old(t).project_id,
        final(t).version == old(t).version,
        final(t).owner == old(t).owner,
        final(t).background_image_base64 == old(t).background_image_base64,
        final(t).provenance == old(t).provenance,
        final(t).characters@.len() == old(t).characters@.len(),
        forall|i: int|
            0 <= i < final(t).characters@.len() ==> {
                let o = old(t).characters@[i];
                let n = (#[trigger] final(t).characters@[i]);
                &&& n.0 == o.0
                &&& n.1.id == o.1.id
                &&& n.1.name == o.1.name
                &&& n.1.gender == o.1.gender
                &&& n.1.age == o.1.age
                &&& n.1.role == o.1.role
                &&& n.1.background == o.1.background
                &&& (n.1.avatar_path == o.1.avatar_path || (avatar_blank(o.1.avatar_path)
                    && n.1.avatar_path == Some(avatar) && trim_of(o.1.name@) == trim_of(
                    protagonist_name@,
                )))
            },
        trim_of(protagonist_name@).len() == 0 ==> final(t).characters == old(t).characters,
        // the first matching entry with no avatar gets this one
        forall|i: int|
            0 <= i < old(t).characters@.len() && trim_of(
                (#[trigger] old(t).characters@[i]).1.name@,
            ) == trim_of(protagonist_name@) && trim_of(protagonist_name@).len() > 0 && (forall|j: int|
                0 <= j < i ==> trim_of((#[trigger] old(t).characters@[j]).1.name@) != trim_of(
                    protagonist_name@,
                )) && avatar_blank(old(t).characters@[i].1.avatar_path)
                ==> final(t).characters@[i].1.avatar_path == Some(avatar),
{
    let pn = str_trim(protagonist_name);
    if pn.as_str().is_empty() {
        return ;
    }
    let n = t.characters.len();
    let mut i: usize = 0;
    while i < n
        invariant
            n == t.characters@.len(),
            i <= n,
            t.nodes == old(t).nodes,
            t.endings == old(t).endings,
            t.meta == old(t).meta,
            t.title == old(t).title,
            t.project_id == old(t).project_id,
            t.version == old(t).version,
            t.owner == old(t).owner,
            t.background_image_base64 == old(t).background_image_base64,
            t.provenance == old(t).provenance,
            t.characters == old(t).characters,
            keys_unique(old(t).nodes@),
            keys_unique(old(t).endings@),
            keys_unique(old(t).characters@),
            pn@ == trim_of(protagonist_name@),
            pn@.len() > 0,
            forall|j: int|
                0 <= j < i ==> trim_of((#[trigger] t.characters@[j]).1.name@) != pn@,
        decreases n - i,
    {
        let tv = str_trim(t.characters[i].1.name.as_str());
        if str_eq(tv.as_str(), pn.as_str()) {
            let ghost cpre0 = t.characters@;
            proof {
                assert(trim_of(t.characters@[i as int].1.name@) == pn@);
            }
            if avatar_is_blank(&t.characters[i].1.avatar_path) {
                let ghost cpre = t.characters@;
                let (key, mut c) = t.characters.remove(i);
                c.avatar_path = Some(avatar);
                t.characters.insert(i, (key, c));
                proof {
                    assert(t.characters@ =~= cpre.update(
                        i as int,
                        (cpre[i as int].0, t.characters@[i as int].1),
                    ));
                    assert forall|x: int, y: int|
                        0 <= x < y < t.characters@.len() implies t.characters@[x].0@
                        != t.characters@[y].0@ by {
                        assert(t.characters@[x].0 == cpre[x].0 && t.characters@[y].0 == cpre[y].0);
                    }
                    // any first-matching blank index is this one
                    assert forall|i0: int|
                        0 <= i0 < cpre.len() && trim_of((#[trigger] cpre[i0]).1.name@) == pn@ && (
                        forall|j: int|
                            0 <= j < i0 ==> trim_of((#[trigger] cpre[j]).1.name@) != pn@)
                        && avatar_blank(cpre[i0].1.avatar_path) implies t.characters@[
                    i0].1.avatar_path == Some(avatar) by {
                        if i0 < i {
                            assert(trim_of(cpre[i0].1.name@) != pn@);
                        } else if i0 > i {
                            assert(trim_of(cpre[i as int].1.name@) != pn@);
                        }
                    }
                }
            } else {
                proof {
                    assert forall|i0: int|
                        0 <= i0 < cpre0.len() && trim_of((#[trigger] cpre0[i0]).1.name@) == pn@
                        && (forall|j: int|
                            0 <= j < i0 ==> trim_of((#[trigger] cpre0[j]).1.name@) != pn@)
                        && avatar_blank(cpre0[i0].1.avatar_path) implies t.characters@[
                    i0].1.avatar_path == Some(avatar) by {
                        if i0 < i {
                            assert(trim_of(cpre0[i0].1.name@) != pn@);
                        } else if i0 > i {
                            assert(trim_of(cpre0[i as int].1.name@) != pn@);
                        } else {
                            assert(!avatar_blank(cpre0[i0].1.avatar_path));
                        }
                    }
                }
            }
            return ;
        }
        i += 1;
    }
}

/// Attach an avatar to the first cast entry, when it has no avatar yet.
pub fn attach_avatar_to_first_character(t: &mut MovieTemplate, avatar: String)
    requires
        old(t).wf(),
    ensures
        final(t).wf(),
        final(t).nodes == old(t).nodes,
        final(t).endings == old(t).endings,
        final(t).meta == old(t).meta,
        final(t).title == old(t).title,
        final(t).project_id == old(t).project_id,
        final(t).version == old(t).version,
        final(t).owner == old(t).owner,
        final(t).background_image_base64 == old(t).background_image_base64,
        final(t).provenance == old(t).provenance,
        final(t).characters@.len() == old(t).characters@.len(),
        forall|i: int|
            0 <= i < final(t).characters@.len() ==> {
                let o = old(t).characters@[i];
                let n = (#[trigger] final(t).characters@[i]);
                &&& n.0 == o.0
                &&& n.1.name == o.1.name
                &&& (n.1.avatar_path == o.1.avatar_path || (i == 0 && avatar_blank(
                    o.1.avatar_path,
                ) && n.1.avatar_path == Some(avatar)))
            },
        (old(t).characters@.len() > 0 && avatar_blank(
            old(t).characters@[0].1.avatar_path,
        )) ==> final(t).characters@[0].1.avatar_path == Some(avatar),
{
    if t.characters.len() == 0 {
        return ;
    }
    if avatar_is_blank(&t.characters[0].1.avatar_path) {
        let ghost cpre = t.characters@;
        let (key, mut c) = t.characters.remove(0);
        c.avatar_path = Some(avatar);
        t.characters.insert(0, (key, c));
        proof {
            assert(t.characters@ =~= cpre.update(0, (cpre[0].0, t.characters@[0].1)));
            assert forall|x: int, y: int|
                0 <= x < y < t.characters@.len() implies t.characters@[x].0@
                != t.characters@[y].0@ by {
                assert(t.characters@[x].0 == cpre[x].0 && t.characters@[y].0 == cpre[y].0);
            }
        }
    }
}

/// Give the expected protagonists placeholder avatars where they have
/// none, and fall back to decorating the first cast entry when no
/// expected name could be used.
pub fn ensure_avatar_fallbacks(t: &mut MovieTemplate, req_chars: &Option<Vec<crate::types::CharacterInput>>)
    requires
        old(t).wf(),
    ensures
        final(t).wf(),
        final(t).nodes == old(t).nodes,
        final(t).endings == old(t).endings,
        final(t).meta == old(t).meta,
        final(t).title == old(t).title,
        final(t).project_id == old(t).project_id,
        final(t).version == old(t).version,
        final(t).owner == old(t).owner,
        final(t).background_image_base64 == old(t).background_image_base64,
        final(t).provenance == old(t).provenance,
        final(t).characters@.len() == old(t).characters@.len(),
        forall|i: int|
            0 <= i < final(t).characters@.len() ==> {
                let o = old(t).characters@[i];
                let n = (#[trigger] final(t).characters@[i]);
                &&& n.0 == o.0
                &&& n.1.name == o.1.name
                &&& (n.1.avatar_path == o.1.avatar_path || (avatar_blank(o.1.avatar_path)
                    && n.1.avatar_path is Some))
            },
        // a nonempty cast always ends up with at least one avatar
        old(t).characters@.len() > 0 ==> exists|i: int|
            0 <= i < final(t).characters@.len()
                && (#[trigger] final(t).characters@[i]).1.avatar_path is Some,
{
    let mut expected: Vec<String> = Vec::new();
    match req_chars {
        Some(rcs) => {
            let rn = rcs.len();
            let mut i: usize = 0;
            while i < rn
                invariant
                    *req_chars == Some(*rcs),
                    rn == rcs@.len(),
                    i <= rn,
                    expected@.len() <= i,
                decreases rn - i,
            {
                if rcs[i].is_main && expected.len() < 2 {
                    let tv = str_trim(rcs[i].name.as_str());
                    if !tv.as_str().is_empty() {
                        expected.push(tv);
                    }
                }
                i += 1;
            }
            if expected.len() == 0 {
                let mut j: usize = 0;
                while j < rn
                    invariant
                        *req_chars == Some(*rcs),
                        rn == rcs@.len(),
                        j <= rn,
                        expected@.len() <= j,
                    decreases rn - j,
                {
                    if expected.len() < 2 {
                        let tv = str_trim(rcs[j].name.as_str());
                        if !tv.as_str().is_empty() {
                            expected.push(tv);
                        }
                    }
                    j += 1;
                }
            }
        },
        None => {},
    }
    if expected.len() == 0 {
        let any_name = if t.characters.len() > 0 {
            t.characters[0].1.name.clone()
        } else {
            "Protagonist".to_owned()
        };
        let ghost cpre = t.characters@;
        let uri = fallback_avatar_data_uri(any_name.as_str());
        attach_avatar_to_first_character(t, uri);
        proof {
            if cpre.len() > 0 {
                if avatar_blank(cpre[0].1.avatar_path) {
                    assert(t.characters@[0].1.avatar_path is Some);
                } else {
                    assert(t.characters@[0].1.avatar_path == cpre[0].1.avatar_path
                        || t.characters@[0].1.avatar_path is Some);
                    assert(t.characters@[0].1.avatar_path is Some);
                }
                assert(exists|i: int|
                    0 <= i < t.characters@.len() && (#[trigger] t.characters@[
                    i]).1.avatar_path is Some) by {
                    assert(t.characters@[0].1.avatar_path is Some);
                }
            }
        }
        return ;
    }
    let ghost chars0 = t.characters@;
    let en = expected.len();
    let mut i: usize = 0;
    while i < en
        invariant
            en == expected@.len(),
            i <= en,
            t.wf(),
            t.nodes == old(t).nodes,
            t.endings == old(t).endings,
            t.meta == old(t).meta,
            t.title == old(t).title,
            t.project_id == old(t).project_id,
            t.version == old(t).version,
            t.owner == old(t).owner,
            t.background_image_base64 == old(t).background_image_base64,
            t.provenance == old(t).provenance,
            t.characters@.len() == old(t).characters@.len(),
            forall|a: int|
                0 <= a < t.characters@.len() ==> {
                    let o = old(t).characters@[a];
                    let n = (#[trigger] t.characters@[a]);
                    &&& n.0 == o.0
                    &&& n.1.name == o.1.name
                    &&& (n.1.avatar_path == o.1.avatar_path || (avatar_blank(o.1.avatar_path)
                        && n.1.avatar_path is Some))
                },
        decreases en - i,
    {
        let ghost cmid = t.characters@;
        let uri = fallback_avatar_data_uri(expected[i].as_str());
        attach_avatar_to_template(t, expected[i].as_str(), uri);
        proof {
            assert forall|a: int| 0 <= a < t.characters@.len() implies {
                let o = old(t).characters@[a];
                let n = (#[trigger] t.characters@[a]);
                &&& n.0 == o.0
                &&& n.1.name == o.1.name
                &&& (n.1.avatar_path == o.1.avatar_path || (avatar_blank(o.1.avatar_path)
                    && n.1.avatar_path is Some))
            } by {
                assert(t.characters@[a].0 == cmid[a].0);
                assert(t.characters@[a].1.name == cmid[a].1.name);
            }
        }
        i += 1;
    }
    // when nothing could be decorated, fall back to the first entry
    let mut all_blank = true;
    let ghost mut wit: int = 0;
    let cn = t.characters.len();
    let mut k: usize = 0;
    while k < cn
        invariant
            cn == t.characters@.len(),
            k <= cn,
            !all_blank ==> 0 <= wit < cn && !avatar_blank(t.characters@[wit].1.avatar_path),
            all_blank ==> forall|a: int|
                0 <= a < k ==> avatar_blank((#[trigger] t.characters@[a]).1.avatar_path),
        decreases cn - k,
    {
        if !avatar_is_blank(&t.characters[k].1.avatar_path) {
            all_blank = false;
            proof {
                wit = k as int;
            }
        }
        k += 1;
    }
    if all_blank {
        let ghost cmid = t.characters@;
        let uri = fallback_avatar_data_uri("Protagonist");
        attach_avatar_to_first_character(t, uri);
        proof {
            assert forall|a: int| 0 <= a < t.characters@.len() implies {
                let o = old(t).characters@[a];
                let n = (#[trigger] t.characters@[a]);
                &&& n.0 == o.0
                &&& n.1.name == o.1.name
                &&& (n.1.avatar_path == o.1.avatar_path || (avatar_blank(o.1.avatar_path)
                    && n.1.avatar_path is Some))
            } by {
                assert(t.characters@[a].0 == cmid[a].0);
                assert(t.characters@[a].1.name == cmid[a].1.name);
            }
            if old(t).characters@.len() > 0 {
                if avatar_blank(cmid[0].1.avatar_path) {
                    assert(t.characters@[0].1.avatar_path is Some);
                } else {
                    assert(false);
                }
                assert(exists|i: int|
                    0 <= i < t.characters@.len() && (#[trigger] t.characters@[
                    i]).1.avatar_path is Some) by {
                    assert(t.characters@[0].1.avatar_path is Some);
                }
            }
        }
    } else {
        proof {
            if old(t).characters@.len() > 0 {
                assert(!avatar_blank(t.characters@[wit].1.avatar_path));
                assert(t.characters@[wit].1.avatar_path is Some);
                assert(exists|i: int|
                    0 <= i < t.characters@.len() && (#[trigger] t.characters@[
                    i]).1.avatar_path is Some) by {
                    assert(t.characters@[wit].1.avatar_path is Some);
                }
            }
        }
    }
}

} // verus!
