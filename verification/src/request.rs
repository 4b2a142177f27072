//! The HTTP request composer's data: a heredoc-style request description
//! parsed into a plain request record. Sending the request is the
//! caller's business; this module only parses and validates.
//!
//! The format is line-based: a line `<<TAG` opens a block that runs to
//! the next line holding only `TAG`; the block's trimmed content is the
//! tag's value. Known tags (any case): `METHOD`, `URL`, `HEADERS` and
//! `COOKIES` (one `name: value` pair per line), `BODY`, `TIMEOUT`
//! (seconds), `FOLLOW_REDIRECTS` (`true`, `1` or `yes`); unknown blocks
//! are ignored. `METHOD` and `URL` are required; the URL must start with
//! `http://` or `https://`; the method must be one of GET, POST, PUT,
//! DELETE, PATCH (any case); a non-numeric `TIMEOUT` is an error. The
//! whole parse is specified exactly by [`heredoc_spec`].

use vstd::prelude::*;
use crate::num::uint_parse;
use crate::text::{eq_ignore_ascii_case_spec, idx_of, trim_spec};
use crate::yaml::strip_cr;

verus! {

/// A parsed request description.
pub struct RequestData {
    pub method: Option<String>,
    pub url: Option<String>,
    pub headers: Vec<(String, String)>,
    pub cookies: Vec<(String, String)>,
    pub body: Option<String>,
    pub timeout_secs: Option<u64>,
    pub follow_redirects: Option<bool>,
}

/// What came back from sending a request: the status code, the response
/// headers, and the body text.
pub struct RequestResult {
    pub status_code: u16,
    pub headers: Vec<(String, String)>,
    pub body: String,
}

/// The mathematical view of a request description.
#[verifier::ext_equal]
pub struct ReqModel {
    pub method: Option<Seq<char>>,
    pub url: Option<Seq<char>>,
    pub headers: Seq<(Seq<char>, Seq<char>)>,
    pub cookies: Seq<(Seq<char>, Seq<char>)>,
    pub body: Option<Seq<char>>,
    pub timeout_secs: Option<int>,
    pub follow_redirects: Option<bool>,
}

/// The view of an optional text.
pub open spec fn opt_text(o: Option<String>) -> Option<Seq<char>> {
    match o {
        Some(t) => Some(t@),
        None => None,
    }
}

/// The view of an optional count.
pub open spec fn opt_count(o: Option<u64>) -> Option<int> {
    match o {
        Some(v) => Some(v as int),
        None => None,
    }
}

/// The views of a name/value pair list.
pub open spec fn pairs_model(s: Seq<(String, String)>) -> Seq<(Seq<char>, Seq<char>)>
    decreases s.len(),
{
    if s.len() == 0 {
        Seq::empty()
    } else {
        seq![(s[0].0@, s[0].1@)] + pairs_model(s.subrange(1, s.len() as int))
    }
}

pub proof fn lemma_pairs_model(s: Seq<(String, String)>)
    ensures
        pairs_model(s).len() == s.len(),
        forall|i: int| 0 <= i < s.len() ==> pairs_model(s)[i] == ((#[trigger] s[i]).0@, s[i].1@),
    decreases s.len(),
{
    if s.len() > 0 {
        let rest = s.subrange(1, s.len() as int);
        lemma_pairs_model(rest);
        assert forall|i: int|
            0 <= i < s.len() implies pairs_model(s)[i] == ((#[trigger] s[i]).0@, s[i].1@) by {
            if i > 0 {
                assert(rest[i - 1] == s[i]);
                assert(pairs_model(s)[i] == pairs_model(rest)[i - 1]);
            }
        }
    }
}

impl RequestData {
    /// The mathematical view of this record.
    pub open spec fn model(self) -> ReqModel {
        ReqModel {
            method: opt_text(self.method),
            url: opt_text(self.url),
            headers: pairs_model(self.headers@),
            cookies: pairs_model(self.cookies@),
            body: opt_text(self.body),
            timeout_secs: opt_count(self.timeout_secs),
            follow_redirects: self.follow_redirects,
        }
    }
}

/// A URL the composer accepts: an `http://` or `https://` scheme.
pub open spec fn valid_url(u: Seq<char>) -> bool {
    (u.len() >= 7 && u.subrange(0, 7) =~= seq!['h', 't', 't', 'p', ':', '/', '/']) || (u.len()
        >= 8 && u.subrange(0, 8) =~= seq!['h', 't', 't', 'p', 's', ':', '/', '/'])
}

/// A method the composer accepts, in any case.
pub open spec fn valid_method(m: Seq<char>) -> bool {
    ||| eq_ignore_ascii_case_spec(m, seq!['g', 'e', 't'])
    ||| eq_ignore_ascii_case_spec(m, seq!['p', 'o', 's', 't'])
    ||| eq_ignore_ascii_case_spec(m, seq!['p', 'u', 't'])
    ||| eq_ignore_ascii_case_spec(m, seq!['d', 'e', 'l', 'e', 't', 'e'])
    ||| eq_ignore_ascii_case_spec(m, seq!['p', 'a', 't', 'c', 'h'])
}

/// The input's lines from `pos` on: split at line feeds, one trailing
/// carriage return dropped from each.
pub open spec fn hlines_from(s: Seq<char>, pos: nat) -> Seq<Seq<char>>
    decreases s.len() - pos when pos <= s.len()
{
    if pos >= s.len() {
        Seq::empty()
    } else {
        let e = idx_of(s, '\n', pos);
        if !(pos <= e && e <= s.len()) {
            Seq::empty()
        } else {
            seq![strip_cr(s.subrange(pos as int, e as int))] + (if e < s.len() {
                hlines_from(s, e + 1)
            } else {
                Seq::empty()
            })
        }
    }
}

/// The `name: value` pairs of a block's content from `pos` on, one per
/// line, names and values trimmed; a line without a colon contributes
/// nothing.
pub open spec fn kv_from(content: Seq<char>, pos: nat) -> Seq<(Seq<char>, Seq<char>)>
    decreases content.len() - pos when pos <= content.len()
{
    if pos >= content.len() {
        Seq::empty()
    } else {
        let e = idx_of(content, '\n', pos);
        if !(pos <= e && e <= content.len()) {
            Seq::empty()
        } else {
            let line = content.subrange(pos as int, e as int);
            let k = idx_of(line, ':', 0);
            (if k < line.len() {
                seq![
                    (
                        trim_spec(line.subrange(0, k as int)),
                        trim_spec(line.subrange(k as int + 1, line.len() as int)),
                    ),
                ]
            } else {
                Seq::empty()
            }) + (if e < content.len() {
                kv_from(content, e + 1)
            } else {
                Seq::empty()
            })
        }
    }
}

/// First line index at or after `j` whose trimmed text is exactly the
/// tag: the end of the block the tag opened.
pub open spec fn hblock_end(ls: Seq<Seq<char>>, j: nat, tag: Seq<char>) -> nat
    decreases ls.len() - j when j <= ls.len()
{
    if j < ls.len() && !(trim_spec(ls[j as int]) == tag) {
        hblock_end(ls, j + 1, tag)
    } else {
        j
    }
}

/// The lines `i..j` joined, each with a line feed after it.
pub open spec fn join_lines(ls: Seq<Seq<char>>, i: nat, j: nat) -> Seq<char>
    decreases j - i when i <= j <= ls.len()
{
    if i >= j {
        Seq::empty()
    } else {
        ls[i as int] + seq!['\n'] + join_lines(ls, i + 1, j)
    }
}

/// The record before any block was read.
pub open spec fn empty_req() -> ReqModel {
    ReqModel {
        method: None,
        url: None,
        headers: Seq::empty(),
        cookies: Seq::empty(),
        body: None,
        timeout_secs: None,
        follow_redirects: None,
    }
}

/// What one block does to the record: the known tags (any case) set
/// their field — header and cookie blocks append their pairs, a
/// non-numeric timeout fails the whole parse — and an unknown tag does
/// nothing.
pub open spec fn apply_block(acc: ReqModel, tag: Seq<char>, content: Seq<char>) -> Option<
    ReqModel,
> {
    if eq_ignore_ascii_case_spec(tag, seq!['m', 'e', 't', 'h', 'o', 'd']) {
        Some(ReqModel { method: Some(content), ..acc })
    } else if eq_ignore_ascii_case_spec(tag, seq!['u', 'r', 'l']) {
        Some(ReqModel { url: Some(content), ..acc })
    } else if eq_ignore_ascii_case_spec(tag, seq!['h', 'e', 'a', 'd', 'e', 'r', 's']) {
        Some(ReqModel { headers: acc.headers + kv_from(content, 0), ..acc })
    } else if eq_ignore_ascii_case_spec(tag, seq!['c', 'o', 'o', 'k', 'i', 'e', 's']) {
        Some(ReqModel { cookies: acc.cookies + kv_from(content, 0), ..acc })
    } else if eq_ignore_ascii_case_spec(tag, seq!['b', 'o', 'd', 'y']) {
        Some(ReqModel { body: Some(content), ..acc })
    } else if eq_ignore_ascii_case_spec(tag, seq!['t', 'i', 'm', 'e', 'o', 'u', 't']) {
        match uint_parse(content) {
            Some(v) => Some(ReqModel { timeout_secs: Some(v), ..acc }),
            None => None,
        }
    } else if eq_ignore_ascii_case_spec(
        tag,
        seq!['f', 'o', 'l', 'l', 'o', 'w', '_', 'r', 'e', 'd', 'i', 'r', 'e', 'c', 't', 's'],
    ) {
        let yes = eq_ignore_ascii_case_spec(content, seq!['t', 'r', 'u', 'e']) || content
            == seq!['1'] || eq_ignore_ascii_case_spec(content, seq!['y', 'e', 's']);
        Some(ReqModel { follow_redirects: Some(yes), ..acc })
    } else {
        Some(acc)
    }
}

/// Scan the lines from `i` on: a trimmed line opening with `<<` starts a
/// block that runs to the next line holding only its tag (or the end),
/// and the block's trimmed joined content is applied to the record; any
/// other line is skipped.
pub open spec fn scan_blocks(ls: Seq<Seq<char>>, i: nat, acc: ReqModel) -> Option<ReqModel>
    decreases ls.len() - i when i <= ls.len()
{
    if i >= ls.len() {
        Some(acc)
    } else {
        let line = trim_spec(ls[i as int]);
        if line.len() >= 2 && line[0] == '<' && line[1] == '<' {
            let tag = trim_spec(line.subrange(2, line.len() as int));
            let j = hblock_end(ls, i + 1, tag);
            if !(i + 1 <= j && j <= ls.len()) {
                None
            } else {
                let content = trim_spec(join_lines(ls, i + 1, j));
                match apply_block(acc, tag, content) {
                    Some(acc2) => {
                        let nx: nat = if j < ls.len() {
                            j + 1
                        } else {
                            j
                        };
                        if !(i < nx && nx <= ls.len()) {
                            None
                        } else {
                            scan_blocks(ls, nx, acc2)
                        }
                    },
                    None => None,
                }
            }
        } else {
            scan_blocks(ls, i + 1, acc)
        }
    }
}

/// What a heredoc request description parses to, or `None` where a
/// timeout block is not numeric, a mandatory block is missing, or the
/// URL or method is not one the composer accepts.
pub open spec fn heredoc_spec(s: Seq<char>) -> Option<ReqModel> {
    match scan_blocks(hlines_from(s, 0), 0, empty_req()) {
        Some(acc) => match (acc.method, acc.url) {
            (Some(m), Some(u)) => if valid_url(u) && valid_method(m) {
                Some(acc)
            } else {
                None
            },
            _ => None,
        },
        None => None,
    }
}

/// Joining one more line keeps the earlier text as a prefix.
pub proof fn lemma_join_snoc(ls: Seq<Seq<char>>, i: nat, j: nat)
    requires
        i <= j < ls.len(),
    ensures
        join_lines(ls, i, j + 1) == join_lines(ls, i, j) + ls[j as int] + seq!['\n'],
    decreases j - i,
{
    if i < j {
        lemma_join_snoc(ls, i + 1, j);
        assert((ls[i as int] + seq!['\n']) + (join_lines(ls, i + 1, j) + ls[j as int]
            + seq!['\n']) =~= ((ls[i as int] + seq!['\n']) + join_lines(ls, i + 1, j))
            + ls[j as int] + seq!['\n']);
        assert(join_lines(ls, i, j + 1) =~= (ls[i as int] + seq!['\n']) + join_lines(
            ls,
            i + 1,
            j + 1,
        ));
        assert(join_lines(ls, i, j) =~= (ls[i as int] + seq!['\n']) + join_lines(ls, i + 1, j));
    } else {
        assert(join_lines(ls, i, j) =~= Seq::<char>::empty());
        assert(join_lines(ls, i + 1, j + 1) =~= Seq::<char>::empty());
        assert(join_lines(ls, i, j + 1) =~= ls[j as int] + seq!['\n'] + Seq::<char>::empty());
        assert(Seq::<char>::empty() + ls[j as int] + seq!['\n'] =~= ls[j as int] + seq!['\n']);
    }
}

fn word(text: &str) -> (r: Vec<char>)
    ensures
        r@ == text@,
{
    crate::text::to_chars(text)
}

/// Split `content` into `name: value` pairs, matching [`kv_from`].
fn kv_pairs(content: &Vec<char>) -> (r: Vec<(String, String)>)
    ensures
        pairs_model(r@) == kv_from(content@, 0),
{
    let mut out: Vec<(String, String)> = Vec::new();
    let mut pos: usize = 0;
    let mut stop = false;
    proof {
        lemma_pairs_model(out@);
        assert(pairs_model(out@) =~= Seq::<(Seq<char>, Seq<char>)>::empty());
        assert(Seq::<(Seq<char>, Seq<char>)>::empty() + kv_from(content@, 0) =~= kv_from(
            content@,
            0,
        ));
    }
    while !stop
        invariant
            pos <= content@.len(),
            kv_from(content@, 0) == pairs_model(out@) + kv_from(content@, pos as nat),
            stop ==> pos == content@.len(),
        decreases 2 * (content@.len() - pos) + (if stop { 0int } else { 1int }),
    {
        let ghost ppos = pos as nat;
        let ghost ppm = pairs_model(out@);
        if pos == content.len() {
            stop = true;
        } else {
            let e = crate::text::find_char(content, '\n', pos);
            proof {
                crate::text::lemma_idx_of_bounds(content@, '\n', pos as nat);
            }
            let line = crate::text::subvec(content, pos, e);
            let k = crate::text::find_char(&line, ':', 0);
            proof {
                crate::text::lemma_idx_of_bounds(line@, ':', 0);
            }
            if k < line.len() {
                let name = crate::text::trim(&crate::text::subvec(&line, 0, k));
                let val = crate::text::trim(&crate::text::subvec(&line, k + 1, line.len()));
                let ghost pvec = out@;
                out.push(
                    (crate::text::chars_to_string(&name), crate::text::chars_to_string(&val)),
                );
                proof {
                    lemma_pairs_model(pvec);
                    lemma_pairs_model(out@);
                    assert forall|w: int|
                        0 <= w < pairs_model(out@).len() implies pairs_model(out@)[w] == (
                    ppm.push((name@, val@)))[w] by {
                        assert(pairs_model(out@)[w] == (out@[w].0@, out@[w].1@));
                        if w < pvec.len() {
                            assert(out@[w] == pvec[w]);
                            assert(ppm[w] == (pvec[w].0@, pvec[w].1@));
                        }
                    }
                    assert(pairs_model(out@) =~= ppm.push((name@, val@)));
                }
            }
            let ghost this: Seq<(Seq<char>, Seq<char>)> = if k < line@.len() {
                seq![(name_of(line@, k as nat), value_of(line@, k as nat))]
            } else {
                Seq::empty()
            };
            if e >= content.len() {
                pos = content.len();
                stop = true;
                proof {
                    assert(kv_from(content@, ppos) =~= this + Seq::<(Seq<char>, Seq<char>)>::empty());
                    assert(ppm + (this + Seq::<(Seq<char>, Seq<char>)>::empty()) =~= ppm + this);
                    assert(ppm + this =~= pairs_model(out@));
                    assert(kv_from(content@, content@.len()) =~= Seq::<(
                        Seq<char>,
                        Seq<char>,
                    )>::empty());
                    assert(pairs_model(out@) + kv_from(content@, pos as nat) =~= pairs_model(
                        out@,
                    ));
                }
            } else {
                pos = e + 1;
                proof {
                    let tail = kv_from(content@, pos as nat);
                    assert(kv_from(content@, ppos) =~= this + tail);
                    assert(ppm + (this + tail) =~= (ppm + this) + tail);
                    assert(ppm + this =~= pairs_model(out@));
                }
            }
        }
    }
    proof {
        assert(kv_from(content@, content@.len()) =~= Seq::<(Seq<char>, Seq<char>)>::empty());
        assert(pairs_model(out@) + Seq::<(Seq<char>, Seq<char>)>::empty() =~= pairs_model(out@));
    }
    out
}

/// The trimmed name a `name: value` line holds before its colon.
pub open spec fn name_of(line: Seq<char>, k: nat) -> Seq<char> {
    trim_spec(line.subrange(0, k as int))
}

/// The trimmed value a `name: value` line holds after its colon.
pub open spec fn value_of(line: Seq<char>, k: nat) -> Seq<char> {
    trim_spec(line.subrange(k as int + 1, line.len() as int))
}

/// The model of an executable line list.
pub open spec fn vlines_model(s: Seq<Vec<char>>) -> Seq<Seq<char>>
    decreases s.len(),
{
    if s.len() == 0 {
        Seq::empty()
    } else {
        seq![s[0]@] + vlines_model(s.subrange(1, s.len() as int))
    }
}

pub proof fn lemma_vlines_model(s: Seq<Vec<char>>)
    ensures
        vlines_model(s).len() == s.len(),
        forall|i: int| 0 <= i < s.len() ==> vlines_model(s)[i] == (#[trigger] s[i])@,
    decreases s.len(),
{
    if s.len() > 0 {
        let rest = s.subrange(1, s.len() as int);
        lemma_vlines_model(rest);
        assert forall|i: int|
            0 <= i < s.len() implies vlines_model(s)[i] == (#[trigger] s[i])@ by {
            if i > 0 {
                assert(rest[i - 1] == s[i]);
                assert(vlines_model(s)[i] == vlines_model(rest)[i - 1]);
            }
        }
    }
}

/// Parse a heredoc request description, matching [`heredoc_spec`]. On
/// success the record holds a valid method and URL, every block's value,
/// and nothing else.
pub fn parse_heredoc_request(input: &str) -> (r: Result<RequestData, String>)
    ensures
        match r {
            Ok(rd) => heredoc_spec(input@) == Some(rd.model()) && rd.method is Some && rd.url
                is Some && valid_method((rd.method->0)@) && valid_url((rd.url->0)@),
            Err(_) => heredoc_spec(input@) is None,
        },
{
    let chars = crate::text::to_chars(input);
    let mut lines: Vec<Vec<char>> = Vec::new();
    let mut pos: usize = 0;
    let mut stop = false;
    proof {
        lemma_vlines_model(lines@);
        assert(vlines_model(lines@) =~= Seq::<Seq<char>>::empty());
        assert(Seq::<Seq<char>>::empty() + hlines_from(chars@, 0) =~= hlines_from(chars@, 0));
    }
    while !stop
        invariant
            pos <= chars@.len(),
            chars@ == input@,
            hlines_from(input@, 0) == vlines_model(lines@) + hlines_from(input@, pos as nat),
            stop ==> pos == chars@.len(),
        decreases 2 * (chars@.len() - pos) + (if stop { 0int } else { 1int }),
    {
        let ghost ppos = pos as nat;
        let ghost plm = vlines_model(lines@);
        if pos == chars.len() {
            stop = true;
        } else {
            let e = crate::text::find_char(&chars, '\n', pos);
            proof {
                crate::text::lemma_idx_of_bounds(chars@, '\n', pos as nat);
            }
            let mut line = crate::text::subvec(&chars, pos, e);
            let ghost line0 = chars@.subrange(pos as int, e as int);
            if line.len() > 0 && line[line.len() - 1] == '\r' {
                line = crate::text::subvec(&line, 0, line.len() - 1);
            }
            proof {
                assert(line@ == strip_cr(line0));
            }
            let ghost lv = line@;
            let ghost pvec = lines@;
            lines.push(line);
            proof {
                lemma_vlines_model(pvec);
                lemma_vlines_model(lines@);
                assert forall|w: int|
                    0 <= w < vlines_model(lines@).len() implies vlines_model(lines@)[w] == (
                plm.push(lv))[w] by {
                    assert(vlines_model(lines@)[w] == lines@[w]@);
                    if w < pvec.len() {
                        assert(lines@[w] == pvec[w]);
                        assert(plm[w] == pvec[w]@);
                    }
                }
                assert(vlines_model(lines@) =~= plm.push(lv));
            }
            if e >= chars.len() {
                pos = chars.len();
                stop = true;
                proof {
                    assert(hlines_from(input@, ppos) =~= seq![lv] + Seq::<Seq<char>>::empty());
                    assert(plm + (seq![lv] + Seq::<Seq<char>>::empty()) =~= vlines_model(
                        lines@,
                    ));
                    assert(hlines_from(input@, chars@.len()) =~= Seq::<Seq<char>>::empty());
                    assert(vlines_model(lines@) + hlines_from(input@, pos as nat) =~=
                        vlines_model(lines@));
                }
            } else {
                pos = e + 1;
                proof {
                    let tail = hlines_from(input@, pos as nat);
                    assert(hlines_from(input@, ppos) =~= seq![lv] + tail);
                    assert(plm + (seq![lv] + tail) =~= (plm.push(lv)) + tail);
                }
            }
        }
    }
    proof {
        assert(hlines_from(input@, chars@.len()) =~= Seq::<Seq<char>>::empty());
        assert(vlines_model(lines@) + Seq::<Seq<char>>::empty() =~= vlines_model(lines@));
        assert(hlines_from(input@, 0) == vlines_model(lines@));
        lemma_vlines_model(lines@);
    }
    let ghost lsv = vlines_model(lines@);

    let mut method: Option<String> = None;
    let mut url: Option<String> = None;
    let mut headers: Vec<(String, String)> = Vec::new();
    let mut cookies: Vec<(String, String)> = Vec::new();
    let mut body: Option<String> = None;
    let mut timeout_secs: Option<u64> = None;
    let mut follow_redirects: Option<bool> = None;

    let pat_method = word("method");
    let pat_url = word("url");
    let pat_headers = word("headers");
    let pat_cookies = word("cookies");
    let pat_body = word("body");
    let pat_timeout = word("timeout");
    let pat_follow = word("follow_redirects");
    let pat_true = word("true");
    let pat_one = word("1");
    let pat_yes = word("yes");
    proof {
        reveal_strlit("method");
        reveal_strlit("url");
        reveal_strlit("headers");
        reveal_strlit("cookies");
        reveal_strlit("body");
        reveal_strlit("timeout");
        reveal_strlit("follow_redirects");
        reveal_strlit("true");
        reveal_strlit("1");
        reveal_strlit("yes");
        assert(pat_method@ =~= seq!['m', 'e', 't', 'h', 'o', 'd']);
        assert(pat_url@ =~= seq!['u', 'r', 'l']);
        assert(pat_headers@ =~= seq!['h', 'e', 'a', 'd', 'e', 'r', 's']);
        assert(pat_cookies@ =~= seq!['c', 'o', 'o', 'k', 'i', 'e', 's']);
        assert(pat_body@ =~= seq!['b', 'o', 'd', 'y']);
        assert(pat_timeout@ =~= seq!['t', 'i', 'm', 'e', 'o', 'u', 't']);
        assert(pat_follow@ =~= seq!['f', 'o', 'l', 'l', 'o', 'w', '_', 'r', 'e', 'd', 'i', 'r',
            'e', 'c', 't', 's']);
        assert(pat_true@ =~= seq!['t', 'r', 'u', 'e']);
        assert(pat_one@ =~= seq!['1']);
        assert(pat_yes@ =~= seq!['y', 'e', 's']);
        lemma_pairs_model(headers@);
        lemma_pairs_model(cookies@);
        assert(pairs_model(headers@) =~= Seq::<(Seq<char>, Seq<char>)>::empty());
        assert(pairs_model(cookies@) =~= Seq::<(Seq<char>, Seq<char>)>::empty());
        assert((ReqModel {
            method: opt_text(method),
            url: opt_text(url),
            headers: pairs_model(headers@),
            cookies: pairs_model(cookies@),
            body: opt_text(body),
            timeout_secs: opt_count(timeout_secs),
            follow_redirects,
        }) =~= empty_req());
    }

    let mut i: usize = 0;
    while i < lines.len()
        invariant
            i <= lines@.len(),
            lsv == vlines_model(lines@),
            lsv.len() == lines@.len(),
            hlines_from(input@, 0) == lsv,
            forall|w: int| 0 <= w < lines@.len() ==> lsv[w] == (#[trigger] lines@[w])@,
            pat_method@ == seq!['m', 'e', 't', 'h', 'o', 'd'],
            pat_url@ == seq!['u', 'r', 'l'],
            pat_headers@ == seq!['h', 'e', 'a', 'd', 'e', 'r', 's'],
            pat_cookies@ == seq!['c', 'o', 'o', 'k', 'i', 'e', 's'],
            pat_body@ == seq!['b', 'o', 'd', 'y'],
            pat_timeout@ == seq!['t', 'i', 'm', 'e', 'o', 'u', 't'],
            pat_follow@ == seq!['f', 'o', 'l', 'l', 'o', 'w', '_', 'r', 'e', 'd', 'i', 'r', 'e',
                'c', 't', 's'],
            pat_true@ == seq!['t', 'r', 'u', 'e'],
            pat_one@ == seq!['1'],
            pat_yes@ == seq!['y', 'e', 's'],
            scan_blocks(lsv, 0, empty_req()) == scan_blocks(
                lsv,
                i as nat,
                (ReqModel {
                    method: opt_text(method),
                    url: opt_text(url),
                    headers: pairs_model(headers@),
                    cookies: pairs_model(cookies@),
                    body: opt_text(body),
                    timeout_secs: opt_count(timeout_secs),
                    follow_redirects,
                }),
            ),
        decreases lines@.len() - i,
    {
        let ghost pi = i as nat;
        let ghost pacc = ReqModel {
            method: opt_text(method),
            url: opt_text(url),
            headers: pairs_model(headers@),
            cookies: pairs_model(cookies@),
            body: opt_text(body),
            timeout_secs: opt_count(timeout_secs),
            follow_redirects,
        };
        let line = crate::text::trim(&lines[i]);
        proof {
            assert(line@ == trim_spec(lsv[pi as int]));
        }
        if line.len() >= 2 && line[0] == '<' && line[1] == '<' {
            let tag = crate::text::trim(&crate::text::subvec(&line, 2, line.len()));
            let mut content: Vec<char> = Vec::new();
            let mut j: usize = i + 1;
            let mut closed = false;
            proof {
                assert(content@ =~= join_lines(lsv, (i + 1) as nat, j as nat));
            }
            while !closed && j < lines.len()
                invariant
                    i + 1 <= j <= lines@.len(),
                    lsv == vlines_model(lines@),
                    lsv.len() == lines@.len(),
                    forall|w: int| 0 <= w < lines@.len() ==> lsv[w] == (#[trigger] lines@[w])@,
                    hblock_end(lsv, (i + 1) as nat, tag@) == hblock_end(lsv, j as nat, tag@),
                    content@ == join_lines(lsv, (i + 1) as nat, j as nat),
                    closed ==> j < lines@.len() && trim_spec(lsv[j as int]) == tag@,
                decreases lines@.len() - j + (if closed { 0int } else { 1int }),
            {
                let lj = crate::text::trim(&lines[j]);
                proof {
                    assert(lj@ == trim_spec(lsv[j as int]));
                }
                if crate::text::chars_eq(&lj, &tag) {
                    closed = true;
                } else {
                    let ghost pcontent = content@;
                    let mut copyj = crate::text::subvec(&lines[j], 0, lines[j].len());
                    proof {
                        assert(copyj@ == lsv[j as int]);
                    }
                    content.append(&mut copyj);
                    content.push('\n');
                    proof {
                        lemma_join_snoc(lsv, (i + 1) as nat, j as nat);
                        assert(content@ =~= (pcontent + lsv[j as int]).push('\n'));
                        assert((join_lines(lsv, (i + 1) as nat, j as nat) + lsv[j as int]).push(
                            '\n',
                        ) =~= join_lines(lsv, (i + 1) as nat, j as nat) + lsv[j as int]
                            + seq!['\n']);
                    }
                    j += 1;
                }
            }
            proof {
                assert(hblock_end(lsv, (i + 1) as nat, tag@) == j as nat);
            }
            let content = crate::text::trim(&content);
            let ghost contv = content@;
            let ghost tagv = tag@;
            proof {
                assert(contv == trim_spec(join_lines(lsv, (i + 1) as nat, j as nat)));
            }
            let mut failed = false;
            if crate::text::eq_ignore_case(&tag, &pat_method) {
                method = Some(crate::text::chars_to_string(&content));
            } else if crate::text::eq_ignore_case(&tag, &pat_url) {
                url = Some(crate::text::chars_to_string(&content));
            } else if crate::text::eq_ignore_case(&tag, &pat_headers) {
                let ghost ph = headers@;
                let mut more = kv_pairs(&content);
                let ghost mh = more@;
                headers.append(&mut more);
                proof {
                    lemma_pairs_model(ph);
                    lemma_pairs_model(mh);
                    lemma_pairs_model(headers@);
                    assert forall|w: int|
                        0 <= w < pairs_model(headers@).len() implies pairs_model(headers@)[w]
                        == (pairs_model(ph) + pairs_model(mh))[w] by {
                        assert(pairs_model(headers@)[w] == (headers@[w].0@, headers@[w].1@));
                        if w < ph.len() {
                            assert(headers@[w] == ph[w]);
                            assert(pairs_model(ph)[w] == (ph[w].0@, ph[w].1@));
                        } else {
                            assert(headers@[w] == mh[w - ph.len()]);
                            assert(pairs_model(mh)[w - ph.len()] == (mh[w - ph.len()].0@, mh[w
                                - ph.len()].1@));
                        }
                    }
                    assert(pairs_model(headers@) =~= pairs_model(ph) + pairs_model(mh));
                }
            } else if crate::text::eq_ignore_case(&tag, &pat_cookies) {
                let ghost ph = cookies@;
                let mut more = kv_pairs(&content);
                let ghost mh = more@;
                cookies.append(&mut more);
                proof {
                    lemma_pairs_model(ph);
                    lemma_pairs_model(mh);
                    lemma_pairs_model(cookies@);
                    assert forall|w: int|
                        0 <= w < pairs_model(cookies@).len() implies pairs_model(cookies@)[w]
                        == (pairs_model(ph) + pairs_model(mh))[w] by {
                        assert(pairs_model(cookies@)[w] == (cookies@[w].0@, cookies@[w].1@));
                        if w < ph.len() {
                            assert(cookies@[w] == ph[w]);
                            assert(pairs_model(ph)[w] == (ph[w].0@, ph[w].1@));
                        } else {
                            assert(cookies@[w] == mh[w - ph.len()]);
                            assert(pairs_model(mh)[w - ph.len()] == (mh[w - ph.len()].0@, mh[w
                                - ph.len()].1@));
                        }
                    }
                    assert(pairs_model(cookies@) =~= pairs_model(ph) + pairs_model(mh));
                }
            } else if crate::text::eq_ignore_case(&tag, &pat_body) {
                body = Some(crate::text::chars_to_string(&content));
            } else if crate::text::eq_ignore_case(&tag, &pat_timeout) {
                match crate::num::parse_u64(&content) {
                    Some(v) => {
                        timeout_secs = Some(v);
                    },
                    None => {
                        failed = true;
                    },
                }
            } else if crate::text::eq_ignore_case(&tag, &pat_follow) {
                let yes = crate::text::eq_ignore_case(&content, &pat_true)
                    || crate::text::chars_eq(&content, &pat_one) || crate::text::eq_ignore_case(
                    &content,
                    &pat_yes,
                );
                follow_redirects = Some(yes);
            }
            if failed {
                proof {
                    assert(apply_block(pacc, tagv, contv) is None);
                    assert(scan_blocks(lsv, pi, pacc) is None);
                }
                return Err(crate::text::chars_to_string(
                    &crate::text::to_chars("TIMEOUT block does not hold a number"),
                ));
            }
            i = if j < lines.len() {
                j + 1
            } else {
                j
            };
            proof {
                let newacc = ReqModel {
                    method: opt_text(method),
                    url: opt_text(url),
                    headers: pairs_model(headers@),
                    cookies: pairs_model(cookies@),
                    body: opt_text(body),
                    timeout_secs: opt_count(timeout_secs),
                    follow_redirects,
                };
                assert(apply_block(pacc, tagv, contv) == Some(newacc));
                assert(scan_blocks(lsv, pi, pacc) == scan_blocks(lsv, i as nat, newacc));
            }
        } else {
            i += 1;
        }
    }
    let ghost accm = ReqModel {
        method: opt_text(method),
        url: opt_text(url),
        headers: pairs_model(headers@),
        cookies: pairs_model(cookies@),
        body: opt_text(body),
        timeout_secs: opt_count(timeout_secs),
        follow_redirects,
    };
    proof {
        assert(scan_blocks(lsv, lines@.len() as nat, accm) == Some(accm));
        assert(scan_blocks(lsv, 0, empty_req()) == Some(accm));
    }

    let method_s = match method {
        Some(m) => m,
        None => {
            return Err(crate::text::chars_to_string(
                &crate::text::to_chars("required block <<METHOD ... METHOD>> is missing"),
            ));
        },
    };
    let url_s = match url {
        Some(u) => u,
        None => {
            return Err(crate::text::chars_to_string(
                &crate::text::to_chars("required block <<URL ... URL>> is missing"),
            ));
        },
    };
    let url_chars = crate::text::to_chars(url_s.as_str());
    let pat_http = word("http://");
    let pat_https = word("https://");
    proof {
        reveal_strlit("http://");
        reveal_strlit("https://");
        assert(pat_http@ =~= seq!['h', 't', 't', 'p', ':', '/', '/']);
        assert(pat_https@ =~= seq!['h', 't', 't', 'p', 's', ':', '/', '/']);
    }
    let ok_url = crate::text::starts_with(&url_chars, 0, &pat_http) || crate::text::starts_with(
        &url_chars,
        0,
        &pat_https,
    );
    proof {
        if ok_url {
            assert(url_chars@.subrange(0, url_chars@.len() as int) =~= url_chars@);
            assert(valid_url(url_s@));
        } else {
            assert(!valid_url(url_s@));
        }
    }
    if !ok_url {
        return Err(crate::text::chars_to_string(
            &crate::text::to_chars("invalid URL: it must start with http:// or https://"),
        ));
    }
    let m_chars = crate::text::to_chars(method_s.as_str());
    let pat_get = word("get");
    let pat_post = word("post");
    let pat_put = word("put");
    let pat_delete = word("delete");
    let pat_patch = word("patch");
    proof {
        reveal_strlit("get");
        reveal_strlit("post");
        reveal_strlit("put");
        reveal_strlit("delete");
        reveal_strlit("patch");
        assert(pat_get@ =~= seq!['g', 'e', 't']);
        assert(pat_post@ =~= seq!['p', 'o', 's', 't']);
        assert(pat_put@ =~= seq!['p', 'u', 't']);
        assert(pat_delete@ =~= seq!['d', 'e', 'l', 'e', 't', 'e']);
        assert(pat_patch@ =~= seq!['p', 'a', 't', 'c', 'h']);
    }
    let ok_method = crate::text::eq_ignore_case(&m_chars, &pat_get)
        || crate::text::eq_ignore_case(&m_chars, &pat_post) || crate::text::eq_ignore_case(
        &m_chars,
        &pat_put,
    ) || crate::text::eq_ignore_case(&m_chars, &pat_delete) || crate::text::eq_ignore_case(
        &m_chars,
        &pat_patch,
    );
    proof {
        assert(ok_method == valid_method(method_s@));
    }
    if !ok_method {
        return Err(crate::text::chars_to_string(
            &crate::text::to_chars(
                "invalid HTTP method: the valid ones are GET, POST, PUT, DELETE, PATCH",
            ),
        ));
    }
    let rd = RequestData {
        method: Some(method_s),
        url: Some(url_s),
        headers,
        cookies,
        body,
        timeout_secs,
        follow_redirects,
    };
    proof {
        assert(rd.model() =~= accm);
        assert(heredoc_spec(input@) == Some(rd.model()));
    }
    Ok(rd)
}

} // verus!
