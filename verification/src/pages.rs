//! Reading the cloud's share pages without a browser. A page may first
//! answer with a challenge; a file page is of one of two kinds, each leading
//! to an AJAX request whose answer names a download page; that page leads to
//! a last AJAX request whose answer is the direct link. A folder page leads
//! to a listing fetched page by page. Each step here reads one page and
//! says what to send next; fetching is left to the caller.
use vstd::prelude::*;
use crate::external::{regex_capture, regex_escape, regex_escaped, regex_group, regex_last_capture,
    regex_last_group, regex_replace_all, regex_replaced};
use crate::share::{remove_all, without_all};
use crate::text::{chars_of, contains_seq, has_infix, push_str_chars, string_from_chars};
use crate::waf::{solve_ali_waf, waf_answer, waf_bytes, waf_cuttable};

verus! {

/// A form field of a request.
pub struct FormField {
    pub name: String,
    pub value: String,
}

pub open spec fn form_view(f: Seq<FormField>) -> Seq<(Seq<char>, Seq<char>)> {
    f.map_values(|x: FormField| (x.name@, x.value@))
}

fn field(name: &str, value: String) -> (r: FormField)
    ensures
        r.name@ == name@,
        r.value == value,
{
    FormField { name: name.to_string(), value }
}

fn opt_or_empty(o: Option<&str>) -> (r: String)
    ensures
        r@ == (match o {
            Some(s) => s@,
            None => Seq::<char>::empty(),
        }),
{
    match o {
        Some(s) => s.to_string(),
        None => String::new(),
    }
}

pub open spec fn opt_str_or_empty(o: Option<&str>) -> Seq<char> {
    match o {
        Some(s) => s@,
        None => Seq::<char>::empty(),
    }
}

// ----------------------------------------------------------------------
// The challenge
// ----------------------------------------------------------------------

pub open spec fn challenge_pattern() -> Seq<char> {
    "var arg1='([A-F0-9]+)'"@
}

/// Whether the continuation-byte rule lets `arg1` be answered.
pub fn waf_is_cuttable(arg1: &str) -> (r: bool)
    ensures
        r == waf_cuttable(arg1@),
{
    let chars = chars_of(arg1);
    let mut q: Vec<char> = Vec::new();
    let mut j: usize = 0;
    while j < 40
        invariant
            j <= 40,
            q@.len() == j,
            forall|t: int| 0 <= t < j ==> #[trigger] q@[t] == crate::waf::waf_unshuffled(chars@)[t],
            chars@ == arg1@,
        decreases 40 - j,
    {
        let i = crate::waf::waf_position(j) - 1;
        if i < chars.len() {
            q.push(chars[i]);
        } else {
            q.push(' ');
        }
        j = j + 1;
    }
    proof {
        assert(q@ =~= crate::waf::waf_unshuffled(arg1@));
    }
    let u = string_from_chars(q.as_slice());
    let b = u.as_str().as_bytes();
    let mut k: usize = 0;
    while k <= 20
        invariant
            k <= 21,
            b@ == waf_bytes(arg1@),
            forall|t: int| 0 <= t < k ==> !(2 * t < waf_bytes(arg1@).len() && vstd::utf8::is_continuation_byte(#[trigger] waf_bytes(arg1@)[2 * t])),
        decreases 21 - k,
    {
        let x = 2 * k;
        if x < b.len() && b[x] >= 0x80 && b[x] <= 0xbf {
            return false;
        }
        k = k + 1;
    }
    true
}

/// The cookie that answers a challenge page, for the page's domain; `None`
/// when the page holds no challenge, or one whose answer would have to cut
/// a character in two.
pub open spec fn challenge_cookie_spec(html: Seq<char>, domain: Seq<char>) -> Option<Seq<char>> {
    match regex_group(challenge_pattern(), html, 1) {
        None => None,
        Some(arg1) => if waf_cuttable(arg1) {
            Some("acw_sc__v2="@ + waf_answer(arg1) + "; Domain="@ + domain + "; Path=/"@)
        } else {
            None
        },
    }
}

pub fn challenge_cookie(html: &str, domain: &str) -> (r: Option<String>)
    ensures
        match r {
            Some(c) => challenge_cookie_spec(html@, domain@) == Some(c@),
            None => challenge_cookie_spec(html@, domain@) is None,
        },
{
    let arg1 = match regex_capture("var arg1='([A-F0-9]+)'", html, 1) {
        None => {
            return None;
        },
        Some(a) => a,
    };
    if !waf_is_cuttable(arg1.as_str()) {
        return None;
    }
    let answer = solve_ali_waf(arg1.as_str());
    let mut out: Vec<char> = chars_of("acw_sc__v2=");
    push_str_chars(&mut out, answer.as_str());
    push_str_chars(&mut out, "; Domain=");
    push_str_chars(&mut out, domain);
    push_str_chars(&mut out, "; Path=/");
    Some(string_from_chars(out.as_slice()))
}

// ----------------------------------------------------------------------
// File pages
// ----------------------------------------------------------------------

/// The kinds of file page.
#[derive(Debug, Clone, Copy, PartialEq, Eq, Structural)]
pub enum FilePageKind {
    /// A page that posts its own signed request.
    Direct,
    /// A page that loads the request from an inner frame.
    Framed,
    Unknown,
}

pub open spec fn file_page_kind_spec(html: Seq<char>) -> FilePageKind {
    if has_infix(html, "/ajaxm.php?file="@) && has_infix(without_all(html, " "@), "action':'downprocess'"@)
        && !has_infix(html, "websignkey"@) {
        FilePageKind::Direct
    } else if has_infix(html, "/fn?"@) && !has_infix(html, "wp_sign"@) {
        FilePageKind::Framed
    } else {
        FilePageKind::Unknown
    }
}

fn contains_str(s: &str, p: &str) -> (r: bool)
    ensures
        r == has_infix(s@, p@),
{
    let a = chars_of(s);
    let b = chars_of(p);
    contains_seq(a.as_slice(), b.as_slice())
}

pub fn file_page_kind(html: &str) -> (r: FilePageKind)
    ensures
        r == file_page_kind_spec(html@),
{
    let a = contains_str(html, "/ajaxm.php?file=");
    proof {
        reveal_strlit(" ");
    }
    let compact = remove_all(html, " ");
    let b = contains_str(compact.as_str(), "action':'downprocess'");
    let c = contains_str(html, "websignkey");
    if a && b && !c {
        return FilePageKind::Direct;
    }
    let d = contains_str(html, "/fn?");
    let e = contains_str(html, "wp_sign");
    if d && !e {
        FilePageKind::Framed
    } else {
        FilePageKind::Unknown
    }
}

/// A request to the cloud's AJAX endpoint: the path to post to, relative to
/// the page, and the form.
pub struct AjaxRequest {
    pub path: String,
    pub form: Vec<FormField>,
}

pub open spec fn block_comment_pattern() -> Seq<char> {
    "(?s)/\\*.*?\\*/"@
}

pub open spec fn file_id_pattern() -> Seq<char> {
    "url\\s*:\\s*'/ajaxm\\.php\\?file=(\\d+)'"@
}

pub open spec fn sign_pattern() -> Seq<char> {
    "'action'\\s*:\\s*'downprocess'\\s*,\\s*'sign'\\s*:\\s*'([^']+)'"@
}

/// The request a direct page leads to, or what it lacks: with block
/// comments removed, the file id and the sign.
pub open spec fn direct_page_request(html: Seq<char>, password: Seq<char>) -> Result<(Seq<char>, Seq<(Seq<char>, Seq<char>)>), Seq<char>> {
    let clean = regex_replaced(block_comment_pattern(), html, Seq::<char>::empty());
    match regex_group(file_id_pattern(), clean, 1) {
        None => Err("Type A: missing file ID"@),
        Some(id) => match regex_group(sign_pattern(), clean, 1) {
            None => Err("Type A: missing sign"@),
            Some(sign) => Ok(
                (
                    "/ajaxm.php?file="@ + id,
                    seq![("action"@, "downprocess"@), ("sign"@, sign), ("kd"@, "1"@), ("p"@, password)],
                ),
            ),
        },
    }
}

pub open spec fn ajax_view(r: AjaxRequest) -> (Seq<char>, Seq<(Seq<char>, Seq<char>)>) {
    (r.path@, form_view(r.form@))
}

fn ajax_path(id: &str) -> (r: String)
    ensures
        r@ == "/ajaxm.php?file="@ + id@,
{
    let mut out: Vec<char> = chars_of("/ajaxm.php?file=");
    push_str_chars(&mut out, id);
    string_from_chars(out.as_slice())
}

/// Reads a direct page: the request it leads to.
pub fn read_direct_page(html: &str, password: Option<&str>) -> (r: Result<AjaxRequest, String>)
    ensures
        match r {
            Ok(q) => direct_page_request(html@, opt_str_or_empty(password)) == Ok::<
                (Seq<char>, Seq<(Seq<char>, Seq<char>)>),
                Seq<char>,
            >(ajax_view(q)),
            Err(e) => direct_page_request(html@, opt_str_or_empty(password)) == Err::<
                (Seq<char>, Seq<(Seq<char>, Seq<char>)>),
                Seq<char>,
            >(e@),
        },
{
    let clean = regex_replace_all("(?s)/\\*.*?\\*/", html, "");
    proof {
        reveal_strlit("");
        assert(""@ =~= Seq::<char>::empty());
    }
    let id = match regex_capture("url\\s*:\\s*'/ajaxm\\.php\\?file=(\\d+)'", clean.as_str(), 1) {
        None => {
            return Err("Type A: missing file ID".to_string());
        },
        Some(i) => i,
    };
    let sign = match regex_capture("'action'\\s*:\\s*'downprocess'\\s*,\\s*'sign'\\s*:\\s*'([^']+)'", clean.as_str(), 1) {
        None => {
            return Err("Type A: missing sign".to_string());
        },
        Some(s) => s,
    };
    let mut form: Vec<FormField> = Vec::new();
    form.push(field("action", "downprocess".to_string()));
    form.push(field("sign", sign));
    form.push(field("kd", "1".to_string()));
    form.push(field("p", opt_or_empty(password)));
    let r = AjaxRequest { path: ajax_path(id.as_str()), form };
    proof {
        assert(form_view(r.form@) =~= seq![("action"@, "downprocess"@), ("sign"@, sign@), ("kd"@, "1"@), ("p"@, opt_str_or_empty(password))]);
    }
    Ok(r)
}

pub open spec fn frame_pattern() -> Seq<char> {
    "src=[\"'](/fn\\?[^\"']+)"@
}

/// The inner frame a framed page loads, relative to the page.
pub open spec fn frame_path_spec(html: Seq<char>) -> Result<Seq<char>, Seq<char>> {
    match regex_group(frame_pattern(), html, 1) {
        None => Err("Type B: cannot find /fn? URL"@),
        Some(p) => Ok(p),
    }
}

pub fn read_framed_page(html: &str) -> (r: Result<String, String>)
    ensures
        match r {
            Ok(p) => frame_path_spec(html@) == Ok::<Seq<char>, Seq<char>>(p@),
            Err(e) => frame_path_spec(html@) == Err::<Seq<char>, Seq<char>>(e@),
        },
{
    match regex_capture("src=[\"'](/fn\\?[^\"']+)", html, 1) {
        None => Err("Type B: cannot find /fn? URL".to_string()),
        Some(p) => Ok(p),
    }
}

pub open spec fn ajaxdata_pattern() -> Seq<char> {
    "var\\s+ajaxdata\\s*=\\s*'([^']+)'"@
}

pub open spec fn wp_sign_pattern() -> Seq<char> {
    "var\\s+wp_sign\\s*=\\s*'([^']+)'"@
}

pub open spec fn killdns_pattern() -> Seq<char> {
    "(var\\s+killdns|killdns\\s*=)"@
}

/// The request an inner frame leads to, or what it lacks.
pub open spec fn frame_request(html: Seq<char>) -> Result<(Seq<char>, Seq<(Seq<char>, Seq<char>)>), Seq<char>> {
    match regex_group(ajaxdata_pattern(), html, 1) {
        None => Err("Type B: missing ajaxdata"@),
        Some(ajaxdata) => match regex_group(wp_sign_pattern(), html, 1) {
            None => Err("Type B: missing wp_sign"@),
            Some(wp_sign) => match regex_group(file_id_pattern(), html, 1) {
                None => Err("Type B: missing file_id"@),
                Some(id) => {
                    let kd = if regex_group(killdns_pattern(), html, 0) is Some {
                        "1"@
                    } else {
                        "0"@
                    };
                    Ok(
                        (
                            "/ajaxm.php?file="@ + id,
                            seq![
                                ("action"@, "downprocess"@),
                                ("websignkey"@, ajaxdata),
                                ("signs"@, ajaxdata),
                                ("sign"@, wp_sign),
                                ("websign"@, "2"@),
                                ("kd"@, kd),
                                ("ves"@, "1"@),
                            ],
                        ),
                    )
                },
            },
        },
    }
}

/// Reads the inner frame of a framed page: the request it leads to.
pub fn read_frame(html: &str) -> (r: Result<AjaxRequest, String>)
    ensures
        match r {
            Ok(q) => frame_request(html@) == Ok::<(Seq<char>, Seq<(Seq<char>, Seq<char>)>), Seq<char>>(
                ajax_view(q),
            ),
            Err(e) => frame_request(html@) == Err::<(Seq<char>, Seq<(Seq<char>, Seq<char>)>), Seq<char>>(
                e@,
            ),
        },
{
    let ajaxdata = match regex_capture("var\\s+ajaxdata\\s*=\\s*'([^']+)'", html, 1) {
        None => {
            return Err("Type B: missing ajaxdata".to_string());
        },
        Some(a) => a,
    };
    let wp_sign = match regex_capture("var\\s+wp_sign\\s*=\\s*'([^']+)'", html, 1) {
        None => {
            return Err("Type B: missing wp_sign".to_string());
        },
        Some(w) => w,
    };
    let id = match regex_capture("url\\s*:\\s*'/ajaxm\\.php\\?file=(\\d+)'", html, 1) {
        None => {
            return Err("Type B: missing file_id".to_string());
        },
        Some(i) => i,
    };
    let kd = if regex_capture("(var\\s+killdns|killdns\\s*=)", html, 0).is_some() {
        "1"
    } else {
        "0"
    };
    let mut form: Vec<FormField> = Vec::new();
    form.push(field("action", "downprocess".to_string()));
    form.push(field("websignkey", ajaxdata.clone()));
    form.push(field("signs", ajaxdata));
    form.push(field("sign", wp_sign));
    form.push(field("websign", "2".to_string()));
    form.push(field("kd", kd.to_string()));
    form.push(field("ves", "1".to_string()));
    let r = AjaxRequest { path: ajax_path(id.as_str()), form };
    proof {
        let kdv = if regex_group(killdns_pattern(), html@, 0) is Some {
            "1"@
        } else {
            "0"@
        };
        assert(form_view(r.form@) =~= seq![
            ("action"@, "downprocess"@),
            ("websignkey"@, ajaxdata@),
            ("signs"@, ajaxdata@),
            ("sign"@, wp_sign@),
            ("websign"@, "2"@),
            ("kd"@, kdv),
            ("ves"@, "1"@),
        ]);
    }
    Ok(r)
}

/// What an AJAX answer says: its status, the fields read from it, and its
/// JSON text for error messages.
pub struct AjaxAnswer {
    pub zt: Option<i64>,
    pub dom: Option<String>,
    pub url: Option<String>,
    pub raw: String,
}

pub open spec fn opt_string_text(o: Option<String>) -> Seq<char> {
    match o {
        Some(s) => s@,
        None => Seq::<char>::empty(),
    }
}

fn opt_string_or_empty(o: &Option<String>) -> (r: String)
    ensures
        r@ == opt_string_text(*o),
{
    match o {
        Some(s) => s.clone(),
        None => String::new(),
    }
}

/// The download host and path a first-step answer names, or the failure:
/// `prefix` and the answer when its status is not 1.
pub fn first_step_result(answer: &AjaxAnswer, prefix: &str) -> (r: Result<(String, String), String>)
    ensures
        answer.zt == Some(1i64) ==> (r matches Ok((d, u)) && d@ == opt_string_text(answer.dom) && u@
            == opt_string_text(answer.url)),
        answer.zt != Some(1i64) ==> (r matches Err(e) && e@ == prefix@ + answer.raw@),
{
    if answer.zt == Some(1i64) {
        Ok((opt_string_or_empty(&answer.dom), opt_string_or_empty(&answer.url)))
    } else {
        let mut out: Vec<char> = chars_of(prefix);
        push_str_chars(&mut out, answer.raw.as_str());
        Err(string_from_chars(out.as_slice()))
    }
}

// ----------------------------------------------------------------------
// Download pages
// ----------------------------------------------------------------------

/// `s` without the `/` characters at its end.
pub open spec fn trim_end_slashes(s: Seq<char>) -> Seq<char>
    decreases s.len(),
{
    if s.len() > 0 && s.last() == '/' {
        trim_end_slashes(s.drop_last())
    } else {
        s
    }
}

// ----------------------------------------------------------------------
// Addresses
// ----------------------------------------------------------------------

/// `reference` resolved against the page `base`, as the browser would; an
/// error when either does not parse as a URL.
pub fn join_url(base: &str, reference: &str) -> (r: Result<String, String>)
    ensures
        match r {
            Ok(s) => crate::external::url_joined(base@, reference@) == Some(s@),
            Err(e) => crate::external::url_joined(base@, reference@) is None && e@ == "Invalid URL"@,
        },
{
    match crate::external::url_join(base, reference) {
        Some(s) => Ok(s),
        None => Err("Invalid URL".to_string()),
    }
}

/// The origin a request made from page `url` declares: its scheme, `://`
/// and its host (empty when it has none); empty when it does not parse.
pub open spec fn origin_text(url: Seq<char>) -> Seq<char> {
    match crate::external::url_scheme_host(url) {
        Some((scheme, host)) => scheme + "://"@ + match host {
            Some(h) => h,
            None => Seq::<char>::empty(),
        },
        None => Seq::<char>::empty(),
    }
}

pub fn url_origin(url: &str) -> (r: String)
    ensures
        r@ == origin_text(url@),
{
    match crate::external::url_scheme_and_host(url) {
        Some((scheme, host)) => {
            let mut out = chars_of(scheme.as_str());
            push_str_chars(&mut out, "://");
            match host {
                Some(h) => push_str_chars(&mut out, h.as_str()),
                None => {},
            }
            proof {
                reveal_strlit("://");
            }
            string_from_chars(out.as_slice())
        },
        None => String::new(),
    }
}

/// The domain a challenge cookie is set for: the page's domain name, empty
/// when it has none.
pub fn url_domain_text(url: &str) -> (r: String)
    ensures
        r@ == match crate::external::url_domain(url@) {
            Some(d) => d,
            None => Seq::<char>::empty(),
        },
{
    match crate::external::url_domain_of(url) {
        Some(d) => d,
        None => String::new(),
    }
}

/// The download page a first step's answer names.
pub fn download_page_url(dom: &str, url_path: &str) -> (r: String)
    ensures
        r@ == trim_end_slashes(dom@) + "/file/"@ + url_path@,
{
    let cs = chars_of(dom);
    let mut end: usize = cs.len();
    proof {
        assert(cs@.take(end as int) =~= dom@);
    }
    while end > 0 && cs[end - 1] == '/'
        invariant
            end <= cs@.len(),
            trim_end_slashes(cs@.take(end as int)) == trim_end_slashes(dom@),
            cs@ == dom@,
        decreases end,
    {
        proof {
            assert(cs@.take(end as int).drop_last() =~= cs@.take(end - 1));
        }
        end = end - 1;
    }
    proof {
        if end > 0 {
            assert(cs@.take(end as int).last() == cs@[end - 1]);
        }
        assert(trim_end_slashes(cs@.take(end as int)) == cs@.take(end as int));
        assert(cs@.take(cs@.len() as int) =~= cs@);
    }
    let mut out = crate::text::slice_chars(cs.as_slice(), 0, end);
    push_str_chars(&mut out, "/file/");
    push_str_chars(&mut out, url_path);
    proof {
        assert(cs@.subrange(0, end as int) =~= cs@.take(end as int));
    }
    string_from_chars(out.as_slice())
}

pub open spec fn line_comment_pattern() -> Seq<char> {
    "//.*?\\n"@
}

pub open spec fn verify_pattern() -> Seq<char> {
    "'file'\\s*:\\s*'([^']+)'\\s*,\\s*'el'\\s*:\\s*[a-zA-Z0-9_]+\\s*,\\s*'sign'\\s*:\\s*'([^']+)'"@
}

/// The last request a download page leads to: with comments removed, the
/// file and sign of the last verification block, or what it lacks.
pub open spec fn download_page_request(html: Seq<char>) -> Result<Seq<(Seq<char>, Seq<char>)>, Seq<char>> {
    let c1 = regex_replaced(block_comment_pattern(), html, Seq::<char>::empty());
    let c2 = regex_replaced(line_comment_pattern(), c1, seq!['\n']);
    match (regex_last_group(verify_pattern(), c2, 1), regex_last_group(verify_pattern(), c2, 2)) {
        (Some(file), Some(sign)) => Ok(seq![("file"@, file), ("el"@, "2"@), ("sign"@, sign)]),
        _ => Err("Could not find verification parameters on download page."@),
    }
}

/// Reads a download page: the form of the last request.
pub fn read_download_page(html: &str) -> (r: Result<Vec<FormField>, String>)
    ensures
        match r {
            Ok(f) => download_page_request(html@) == Ok::<Seq<(Seq<char>, Seq<char>)>, Seq<char>>(
                form_view(f@),
            ),
            Err(e) => download_page_request(html@) == Err::<Seq<(Seq<char>, Seq<char>)>, Seq<char>>(
                e@,
            ),
        },
{
    let c1 = regex_replace_all("(?s)/\\*.*?\\*/", html, "");
    let c2 = regex_replace_all("//.*?\\n", c1.as_str(), "\n");
    proof {
        reveal_strlit("");
        reveal_strlit("\n");
        assert(""@ =~= Seq::<char>::empty());
        assert("\n"@ =~= seq!['\n']);
    }
    let pattern = "'file'\\s*:\\s*'([^']+)'\\s*,\\s*'el'\\s*:\\s*[a-zA-Z0-9_]+\\s*,\\s*'sign'\\s*:\\s*'([^']+)'";
    let file = regex_last_capture(pattern, c2.as_str(), 1);
    let sign = regex_last_capture(pattern, c2.as_str(), 2);
    match (file, sign) {
        (Some(f), Some(s)) => {
            let mut form: Vec<FormField> = Vec::new();
            form.push(field("file", f));
            form.push(field("el", "2".to_string()));
            form.push(field("sign", s));
            proof {
                assert(form_view(form@) =~= seq![("file"@, f@), ("el"@, "2"@), ("sign"@, s@)]);
            }
            Ok(form)
        },
        _ => Err("Could not find verification parameters on download page.".to_string()),
    }
}

/// The direct link a last-step answer gives, or the failure.
pub fn final_step_result(answer: &AjaxAnswer) -> (r: Result<String, String>)
    ensures
        answer.zt == Some(1i64) ==> (r matches Ok(u) && u@ == opt_string_text(answer.url)),
        answer.zt != Some(1i64) ==> (r matches Err(e) && e@ == "Final verification failed: "@ + answer.raw@),
{
    if answer.zt == Some(1i64) {
        Ok(opt_string_or_empty(&answer.url))
    } else {
        let mut out: Vec<char> = chars_of("Final verification failed: ");
        push_str_chars(&mut out, answer.raw.as_str());
        Err(string_from_chars(out.as_slice()))
    }
}

// ----------------------------------------------------------------------
// Folder pages
// ----------------------------------------------------------------------

/// What a folder page gives for its listing requests.
pub struct FolderKeys {
    pub fid: String,
    pub uid: String,
    pub puid: String,
    pub t: String,
    pub k: String,
}

pub open spec fn keys_view(k: FolderKeys) -> (Seq<char>, Seq<char>, Seq<char>, Seq<char>, Seq<char>) {
    (k.fid@, k.uid@, k.puid@, k.t@, k.k@)
}

pub open spec fn var_value_pattern(name: Seq<char>) -> Seq<char> {
    "var\\s+"@ + regex_escaped(name) + "\\s*=\\s*'([^']+)'"@
}

/// The keys a folder page holds, or the first one it lacks: the folder,
/// user and parent-user ids, and the values of the two variables that the
/// page's listing function sends as `t` and `k`.
pub open spec fn folder_keys_spec(html: Seq<char>) -> Result<(Seq<char>, Seq<char>, Seq<char>, Seq<char>, Seq<char>), Seq<char>> {
    match regex_group("'fid'\\s*:\\s*(\\d+)"@, html, 1) {
        None => Err("Missing fid"@),
        Some(fid) => match regex_group("'uid'\\s*:\\s*'(\\d+)'"@, html, 1) {
            None => Err("Missing uid"@),
            Some(uid) => match regex_group("'puid'\\s*:\\s*'([^']+)'"@, html, 1) {
                None => Err("Missing puid"@),
                Some(puid) => match regex_group("(?s)function file\\(\\)(.*?)function more\\(\\)"@, html, 1) {
                    None => Err("Cannot locate file() function"@),
                    Some(script) => match regex_group("'t'\\s*:\\s*(\\w+)\\s*[,\\}]"@, script, 1) {
                        None => Err("Cannot find t variable name"@),
                        Some(tv) => match regex_group("'k'\\s*:\\s*(\\w+)\\s*[,\\}]"@, script, 1) {
                            None => Err("Cannot find k variable name"@),
                            Some(kv) => match regex_group(var_value_pattern(tv), html, 1) {
                                None => Err("Cannot find t value"@),
                                Some(t) => match regex_group(var_value_pattern(kv), html, 1) {
                                    None => Err("Cannot find k value"@),
                                    Some(k) => Ok((fid, uid, puid, t, k)),
                                },
                            },
                        },
                    },
                },
            },
        },
    }
}

fn var_value_regex(name: &str) -> (r: String)
    ensures
        r@ == var_value_pattern(name@),
{
    let esc = regex_escape(name);
    let mut out: Vec<char> = chars_of("var\\s+");
    push_str_chars(&mut out, esc.as_str());
    push_str_chars(&mut out, "\\s*=\\s*'([^']+)'");
    string_from_chars(out.as_slice())
}

pub fn read_folder_page(html: &str) -> (r: Result<FolderKeys, String>)
    ensures
        match r {
            Ok(k) => folder_keys_spec(html@) == Ok::<(Seq<char>, Seq<char>, Seq<char>, Seq<char>, Seq<char>), Seq<char>>(
                keys_view(k),
            ),
            Err(e) => folder_keys_spec(html@) == Err::<(Seq<char>, Seq<char>, Seq<char>, Seq<char>, Seq<char>), Seq<char>>(
                e@,
            ),
        },
{
    let fid = match regex_capture("'fid'\\s*:\\s*(\\d+)", html, 1) {
        None => {
            return Err("Missing fid".to_string());
        },
        Some(x) => x,
    };
    let uid = match regex_capture("'uid'\\s*:\\s*'(\\d+)'", html, 1) {
        None => {
            return Err("Missing uid".to_string());
        },
        Some(x) => x,
    };
    let puid = match regex_capture("'puid'\\s*:\\s*'([^']+)'", html, 1) {
        None => {
            return Err("Missing puid".to_string());
        },
        Some(x) => x,
    };
    let script = match regex_capture("(?s)function file\\(\\)(.*?)function more\\(\\)", html, 1) {
        None => {
            return Err("Cannot locate file() function".to_string());
        },
        Some(x) => x,
    };
    let tv = match regex_capture("'t'\\s*:\\s*(\\w+)\\s*[,\\}]", script.as_str(), 1) {
        None => {
            return Err("Cannot find t variable name".to_string());
        },
        Some(x) => x,
    };
    let kv = match regex_capture("'k'\\s*:\\s*(\\w+)\\s*[,\\}]", script.as_str(), 1) {
        None => {
            return Err("Cannot find k variable name".to_string());
        },
        Some(x) => x,
    };
    let tre = var_value_regex(tv.as_str());
    let t = match regex_capture(tre.as_str(), html, 1) {
        None => {
            return Err("Cannot find t value".to_string());
        },
        Some(x) => x,
    };
    let kre = var_value_regex(kv.as_str());
    let k = match regex_capture(kre.as_str(), html, 1) {
        None => {
            return Err("Cannot find k value".to_string());
        },
        Some(x) => x,
    };
    Ok(FolderKeys { fid, uid, puid, t, k })
}

/// The form of listing page `pg` of a folder.
pub open spec fn listing_form(k: (Seq<char>, Seq<char>, Seq<char>, Seq<char>, Seq<char>), pg: u64, pwd: Seq<char>) -> Seq<(Seq<char>, Seq<char>)> {
    seq![
        ("lx"@, "2"@),
        ("fid"@, k.0),
        ("uid"@, k.1),
        ("puid"@, k.2),
        ("pg"@, crate::text::decimal(pg as nat)),
        ("rep"@, "0"@),
        ("t"@, k.3),
        ("k"@, k.4),
        ("up"@, "1"@),
        ("ls"@, "1"@),
        ("pwd"@, pwd),
    ]
}

/// The request for listing page `pg` of a folder.
pub fn listing_request(keys: &FolderKeys, pg: u64, password: Option<&str>) -> (r: AjaxRequest)
    ensures
        r.path@ == "/filemoreajax.php?file="@ + keys.fid@,
        form_view(r.form@) == listing_form(keys_view(*keys), pg, opt_str_or_empty(password)),
{
    let mut pg_text: Vec<char> = Vec::new();
    crate::text::push_decimal(&mut pg_text, pg);
    let mut form: Vec<FormField> = Vec::new();
    form.push(field("lx", "2".to_string()));
    form.push(field("fid", keys.fid.clone()));
    form.push(field("uid", keys.uid.clone()));
    form.push(field("puid", keys.puid.clone()));
    form.push(field("pg", string_from_chars(pg_text.as_slice())));
    form.push(field("rep", "0".to_string()));
    form.push(field("t", keys.t.clone()));
    form.push(field("k", keys.k.clone()));
    form.push(field("up", "1".to_string()));
    form.push(field("ls", "1".to_string()));
    form.push(field("pwd", opt_or_empty(password)));
    let mut path: Vec<char> = chars_of("/filemoreajax.php?file=");
    push_str_chars(&mut path, keys.fid.as_str());
    proof {
        assert(form_view(form@) =~= listing_form(keys_view(*keys), pg, opt_str_or_empty(password)));
    }
    AjaxRequest { path: string_from_chars(path.as_slice()), form }
}

/// How many entries a full listing page holds.
pub const LISTING_PAGE_SIZE: usize = 50;

/// What to do with a listing page's answer: whether its entries are taken,
/// and whether another page is asked for. A page with status 1 and a list
/// is taken; only a full page leads to another.
pub fn listing_step(zt: Option<i64>, entries: Option<usize>) -> (r: (bool, bool))
    ensures
        r.0 == (zt == Some(1i64) && entries is Some),
        r.1 == (zt == Some(1i64) && (entries matches Some(n) && n >= LISTING_PAGE_SIZE)),
{
    if zt != Some(1i64) {
        return (false, false);
    }
    match entries {
        None => (false, false),
        Some(n) => (true, n >= LISTING_PAGE_SIZE),
    }
}

/// The share page of a folder entry: the folder's origin, `/`, its id.
pub fn entry_share_url(base: &str, id: &str) -> (r: String)
    ensures
        r@ == base@ + seq!['/'] + id@,
{
    let mut out: Vec<char> = chars_of(base);
    out.push('/');
    push_str_chars(&mut out, id);
    string_from_chars(out.as_slice())
}

} // verus!
