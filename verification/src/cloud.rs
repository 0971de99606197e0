//! The account side of the cloud drive: where the session stands in the
//! folder hierarchy, the forms of its requests, and what is read back from
//! its pages and answers. Sending the requests is left to the caller.
use vstd::prelude::*;
use crate::external::{regex_capture, regex_group};
use crate::pages::{form_view, FormField};
use crate::share::{remove_all, starts_with, without_all};
use crate::text::{chars_of, contains_seq, has_infix, has_prefix, push_decimal, push_str_chars,
    str_eq, string_from_chars};

verus! {

/// The host every request of a logged-in session goes to.
pub const BASE_URL: &'static str = "https://up.woozooo.com";

fn form_field(name: &str, value: &str) -> (r: FormField)
    ensures
        r.name@ == name@,
        r.value@ == value@,
{
    FormField { name: name.to_string(), value: value.to_string() }
}

fn concat(a: &str, b: &str) -> (r: String)
    ensures
        r@ == a@ + b@,
{
    let mut out = chars_of(a);
    push_str_chars(&mut out, b);
    string_from_chars(out.as_slice())
}

/// A folder id as the cloud takes it back: without the `fol` its listings
/// put in front.
pub open spec fn clean_folder_id(id: Seq<char>) -> Seq<char> {
    if starts_with(id, "fol"@) {
        without_all(id, "fol"@)
    } else {
        id
    }
}

/// The folder a stack of folders stands in: its last, the root (`-1`) when
/// it is empty.
pub open spec fn current_folder_of(stack: Seq<String>) -> Seq<char> {
    if stack.len() == 0 {
        "-1"@
    } else {
        stack.last()@
    }
}

/// A logged-in session: the account's id once its cookies are set, and
/// the folders walked into from the root.
pub struct LanzouCloud {
    pub ylogin: Option<String>,
    pub folder_stack: Vec<String>,
}

impl LanzouCloud {
    /// A session standing at the root.
    pub fn new() -> (r: Self)
        ensures
            r.ylogin is None,
            r.folder_stack@.len() == 1,
            r.folder_stack@[0]@ == "-1"@,
    {
        let mut stack: Vec<String> = Vec::new();
        stack.push("-1".to_string());
        LanzouCloud { ylogin: None, folder_stack: stack }
    }

    /// Takes the account's login cookies; returns the `Cookie` header that
    /// every later request carries.
    pub fn set_cookies(&mut self, ylogin: String, phpdisk_info: String) -> (r: String)
        ensures
            final(self).ylogin == Some(ylogin),
            final(self).folder_stack == old(self).folder_stack,
            r@ == "ylogin="@ + ylogin@ + "; phpdisk_info="@ + phpdisk_info@,
    {
        let mut out = chars_of("ylogin=");
        push_str_chars(&mut out, ylogin.as_str());
        push_str_chars(&mut out, "; phpdisk_info=");
        push_str_chars(&mut out, phpdisk_info.as_str());
        self.ylogin = Some(ylogin);
        string_from_chars(out.as_slice())
    }

    /// The folder the session stands in.
    pub fn current_folder(&self) -> (r: String)
        ensures
            r@ == current_folder_of(self.folder_stack@),
    {
        let n = self.folder_stack.len();
        if n == 0 {
            "-1".to_string()
        } else {
            self.folder_stack[n - 1].clone()
        }
    }

    /// Walks into folder `folder_id`.
    pub fn enter_folder_by_id(&mut self, folder_id: String)
        ensures
            final(self).folder_stack@.len() == old(self).folder_stack@.len() + 1,
            final(self).folder_stack@.drop_last() == old(self).folder_stack@,
            final(self).folder_stack@.last()@ == clean_folder_id(folder_id@),
            final(self).ylogin == old(self).ylogin,
    {
        let cs = chars_of(folder_id.as_str());
        let fol = chars_of("fol");
        proof {
            reveal_strlit("fol");
        }
        let clean = if has_prefix(cs.as_slice(), fol.as_slice()) {
            remove_all(folder_id.as_str(), "fol")
        } else {
            folder_id
        };
        self.folder_stack.push(clean);
        proof {
            assert(final(self).folder_stack@.drop_last() =~= old(self).folder_stack@);
        }
    }

    /// Walks back out of the current folder; the root is never left.
    pub fn go_back(&mut self)
        ensures
            old(self).folder_stack@.len() > 1 ==> final(self).folder_stack@ == old(self).folder_stack@.drop_last(),
            old(self).folder_stack@.len() <= 1 ==> final(self).folder_stack@ == old(self).folder_stack@,
            final(self).ylogin == old(self).ylogin,
    {
        if self.folder_stack.len() > 1 {
            self.folder_stack.pop();
        }
    }

    /// Where the session's folder requests are posted: with the account's
    /// id when it has one.
    pub fn doupload_url(&self) -> (r: String)
        ensures
            r@ == BASE_URL@ + "/doupload.php"@ + (match self.ylogin {
                Some(u) => "?uid="@ + u@,
                None => Seq::<char>::empty(),
            }),
    {
        let mut out = chars_of(BASE_URL);
        push_str_chars(&mut out, "/doupload.php");
        match &self.ylogin {
            Some(u) => {
                push_str_chars(&mut out, "?uid=");
                push_str_chars(&mut out, u.as_str());
            },
            None => {},
        }
        string_from_chars(out.as_slice())
    }

    /// The page the `vei` token is read from.
    pub fn vei_page_url(&self) -> (r: String)
        ensures
            r@ == BASE_URL@ + "/mydisk.php?item=files&action=index"@ + (match self.ylogin {
                Some(u) => "&u="@ + u@,
                None => Seq::<char>::empty(),
            }),
    {
        let mut out = chars_of(BASE_URL);
        push_str_chars(&mut out, "/mydisk.php?item=files&action=index");
        match &self.ylogin {
            Some(u) => {
                push_str_chars(&mut out, "&u=");
                push_str_chars(&mut out, u.as_str());
            },
            None => {},
        }
        string_from_chars(out.as_slice())
    }

    /// The parent of a folder created where the session stands: the root is
    /// `0` there.
    pub fn create_parent_id(&self) -> (r: String)
        ensures
            r@ == if current_folder_of(self.folder_stack@) == "-1"@ {
                "0"@
            } else {
                current_folder_of(self.folder_stack@)
            },
    {
        let cur = self.current_folder();
        if str_eq(cur.as_str(), "-1") {
            "0".to_string()
        } else {
            cur
        }
    }
}

// ----------------------------------------------------------------------
// The forms of the folder requests
// ----------------------------------------------------------------------

/// Lists the folders of `folder_id`.
pub fn folder_list_form(folder_id: &str, vei: &str) -> (r: Vec<FormField>)
    ensures
        form_view(r@) == seq![("task"@, "47"@), ("folder_id"@, folder_id@), ("vei"@, vei@)],
{
    let mut r: Vec<FormField> = Vec::new();
    r.push(form_field("task", "47"));
    r.push(form_field("folder_id", folder_id));
    r.push(form_field("vei", vei));
    proof {
        assert(form_view(r@) =~= seq![("task"@, "47"@), ("folder_id"@, folder_id@), ("vei"@, vei@)]);
    }
    r
}

/// Lists page `pg` of the files of `folder_id`.
pub fn file_list_form(folder_id: &str, pg: u64, vei: &str) -> (r: Vec<FormField>)
    ensures
        form_view(r@) == seq![
            ("task"@, "5"@),
            ("folder_id"@, folder_id@),
            ("pg"@, crate::text::decimal(pg as nat)),
            ("vei"@, vei@),
        ],
{
    let mut pgc: Vec<char> = Vec::new();
    push_decimal(&mut pgc, pg);
    let pgs = string_from_chars(pgc.as_slice());
    let mut r: Vec<FormField> = Vec::new();
    r.push(form_field("task", "5"));
    r.push(form_field("folder_id", folder_id));
    r.push(form_field("pg", pgs.as_str()));
    r.push(form_field("vei", vei));
    proof {
        assert(form_view(r@) =~= seq![
            ("task"@, "5"@),
            ("folder_id"@, folder_id@),
            ("pg"@, crate::text::decimal(pg as nat)),
            ("vei"@, vei@),
        ]);
    }
    r
}

/// Whether a page of a file listing is taken and the next one asked for:
/// only an answer with status 1, an `info` other than 0 and a non-empty
/// list.
pub fn file_page_continues(zt: Option<i64>, info: Option<i64>, entries: Option<usize>) -> (r: bool)
    ensures
        r == (zt == Some(1i64) && info != Some(0i64) && (entries matches Some(n) && n > 0)),
{
    if zt != Some(1i64) || info == Some(0i64) {
        return false;
    }
    match entries {
        Some(n) => n > 0,
        None => false,
    }
}

/// Creates folder `name` under `parent_id`.
pub fn create_folder_form(parent_id: &str, name: &str, description: &str) -> (r: Vec<FormField>)
    ensures
        form_view(r@) == seq![
            ("task"@, "2"@),
            ("parent_id"@, parent_id@),
            ("folder_name"@, name@),
            ("folder_description"@, description@),
        ],
{
    let mut r: Vec<FormField> = Vec::new();
    r.push(form_field("task", "2"));
    r.push(form_field("parent_id", parent_id));
    r.push(form_field("folder_name", name));
    r.push(form_field("folder_description", description));
    proof {
        assert(form_view(r@) =~= seq![
            ("task"@, "2"@),
            ("parent_id"@, parent_id@),
            ("folder_name"@, name@),
            ("folder_description"@, description@),
        ]);
    }
    r
}

/// Deletes file `file_id`.
pub fn delete_file_form(file_id: &str) -> (r: Vec<FormField>)
    ensures
        form_view(r@) == seq![("task"@, "6"@), ("file_id"@, file_id@)],
{
    let mut r: Vec<FormField> = Vec::new();
    r.push(form_field("task", "6"));
    r.push(form_field("file_id", file_id));
    proof {
        assert(form_view(r@) =~= seq![("task"@, "6"@), ("file_id"@, file_id@)]);
    }
    r
}

/// Deletes folder `folder_id`, its `fol` taken off.
pub fn delete_folder_form(folder_id: &str) -> (r: Vec<FormField>)
    ensures
        form_view(r@) == seq![("task"@, "3"@), ("folder_id"@, clean_folder_id(folder_id@))],
{
    let cs = chars_of(folder_id);
    let fol = chars_of("fol");
    proof {
        reveal_strlit("fol");
    }
    let clean = if has_prefix(cs.as_slice(), fol.as_slice()) {
        remove_all(folder_id, "fol")
    } else {
        folder_id.to_string()
    };
    let mut r: Vec<FormField> = Vec::new();
    r.push(form_field("task", "3"));
    r.push(form_field("folder_id", clean.as_str()));
    proof {
        assert(form_view(r@) =~= seq![("task"@, "3"@), ("folder_id"@, clean_folder_id(folder_id@))]);
    }
    r
}

/// Asks for the share of a file or folder.
pub fn share_info_form(id: &str, is_folder: bool) -> (r: Vec<FormField>)
    ensures
        form_view(r@) == if is_folder {
            seq![("task"@, "18"@), ("folder_id"@, id@)]
        } else {
            seq![("task"@, "22"@), ("file_id"@, id@)]
        },
{
    let mut r: Vec<FormField> = Vec::new();
    if is_folder {
        r.push(form_field("task", "18"));
        r.push(form_field("folder_id", id));
        proof {
            assert(form_view(r@) =~= seq![("task"@, "18"@), ("folder_id"@, id@)]);
        }
    } else {
        r.push(form_field("task", "22"));
        r.push(form_field("file_id", id));
        proof {
            assert(form_view(r@) =~= seq![("task"@, "22"@), ("file_id"@, id@)]);
        }
    }
    r
}

/// Moves file `item_id` into folder `target_folder_id`.
pub fn move_item_form(item_id: &str, target_folder_id: &str) -> (r: Vec<FormField>)
    ensures
        form_view(r@) == seq![("task"@, "20"@), ("folder_id"@, target_folder_id@), ("file_id"@, item_id@)],
{
    let mut r: Vec<FormField> = Vec::new();
    r.push(form_field("task", "20"));
    r.push(form_field("folder_id", target_folder_id));
    r.push(form_field("file_id", item_id));
    proof {
        assert(form_view(r@) =~= seq![
            ("task"@, "20"@),
            ("folder_id"@, target_folder_id@),
            ("file_id"@, item_id@),
        ]);
    }
    r
}

/// The recycle bin's page, where items are restored or deleted for good.
pub fn recycle_url() -> (r: String)
    ensures
        r@ == BASE_URL@ + "/mydisk.php?item=recycle"@,
{
    concat(BASE_URL, "/mydisk.php?item=recycle")
}

pub open spec fn recycle_action(is_folder: bool, restore: bool) -> Seq<char> {
    if restore {
        if is_folder {
            "folder_restore"@
        } else {
            "file_restore"@
        }
    } else {
        if is_folder {
            "folder_delete_complete"@
        } else {
            "file_delete_complete"@
        }
    }
}

/// Restores (`restore`) or deletes for good an item of the recycle bin.
pub fn recycle_form(id: &str, is_folder: bool, formhash: &str, restore: bool) -> (r: Vec<FormField>)
    ensures
        form_view(r@) == seq![
            ("action"@, recycle_action(is_folder, restore)),
            ("task"@, recycle_action(is_folder, restore)),
            (if is_folder { "folder_id"@ } else { "file_id"@ }, id@),
            ("ref"@, "https://up.woozooo.com/mydisk.php?item=recycle&action=files"@),
            ("formhash"@, formhash@),
        ],
{
    let action: &str = if restore {
        if is_folder { "folder_restore" } else { "file_restore" }
    } else {
        if is_folder { "folder_delete_complete" } else { "file_delete_complete" }
    };
    let key: &str = if is_folder { "folder_id" } else { "file_id" };
    let mut r: Vec<FormField> = Vec::new();
    r.push(form_field("action", action));
    r.push(form_field("task", action));
    r.push(form_field(key, id));
    r.push(form_field("ref", "https://up.woozooo.com/mydisk.php?item=recycle&action=files"));
    r.push(form_field("formhash", formhash));
    proof {
        assert(form_view(r@) =~= seq![
            ("action"@, recycle_action(is_folder, restore)),
            ("task"@, recycle_action(is_folder, restore)),
            (if is_folder { "folder_id"@ } else { "file_id"@ }, id@),
            ("ref"@, "https://up.woozooo.com/mydisk.php?item=recycle&action=files"@),
            ("formhash"@, formhash@),
        ]);
    }
    r
}

// ----------------------------------------------------------------------
// Reading pages and answers
// ----------------------------------------------------------------------

/// Whether the recycle bin's answer page reports success.
pub fn recycle_succeeded(html: &str, restore: bool) -> (r: bool)
    ensures
        r == has_infix(html@, if restore { "恢复成功"@ } else { "删除成功"@ }),
{
    let h = chars_of(html);
    let word = if restore { chars_of("恢复成功") } else { chars_of("删除成功") };
    contains_seq(h.as_slice(), word.as_slice())
}

/// Whether the drive's front page is that of a logged-in account: it offers
/// to log out.
pub fn is_logged_in_page(html: &str) -> (r: bool)
    ensures
        r == has_infix(html@, "退出"@),
{
    let h = chars_of(html);
    let word = chars_of("退出");
    contains_seq(h.as_slice(), word.as_slice())
}

pub open spec fn vei_literal_pattern() -> Seq<char> {
    "['\"]vei['\"]\\s*:\\s*['\"]([^'\"]+)['\"]"@
}

pub open spec fn vei_variable_pattern() -> Seq<char> {
    "['\"]vei['\"]\\s*:\\s*([a-zA-Z0-9_]+)"@
}

pub open spec fn assigned_value_suffix() -> Seq<char> {
    "\\s*=\\s*['\"]([^'\"]+)['\"]"@
}

/// The `vei` token of the drive's page: written out, or held in a variable
/// whose assignment the page also holds.
pub open spec fn vei_spec(html: Seq<char>) -> Result<Seq<char>, Seq<char>> {
    match regex_group(vei_literal_pattern(), html, 1) {
        Some(v) => Ok(v),
        None => match regex_group(vei_variable_pattern(), html, 1) {
            Some(name) => match regex_group(name + assigned_value_suffix(), html, 1) {
                Some(v) => Ok(v),
                None => Err("Could not extract vei token"@),
            },
            None => Err("Could not extract vei token"@),
        },
    }
}

/// Reads the `vei` token that folder requests carry from the drive's page.
pub fn vei_from_html(html: &str) -> (r: Result<String, String>)
    ensures
        match r {
            Ok(v) => vei_spec(html@) == Ok::<Seq<char>, Seq<char>>(v@),
            Err(e) => vei_spec(html@) == Err::<Seq<char>, Seq<char>>(e@),
        },
{
    if let Some(v) = regex_capture("['\"]vei['\"]\\s*:\\s*['\"]([^'\"]+)['\"]", html, 1) {
        return Ok(v);
    }
    if let Some(name) = regex_capture("['\"]vei['\"]\\s*:\\s*([a-zA-Z0-9_]+)", html, 1) {
        let pattern = concat(name.as_str(), "\\s*=\\s*['\"]([^'\"]+)['\"]");
        if let Some(v) = regex_capture(pattern.as_str(), html, 1) {
            return Ok(v);
        }
    }
    Err("Could not extract vei token".to_string())
}

pub open spec fn formhash_pattern() -> Seq<char> {
    "name=\"formhash\"\\s+value=\"([a-fA-F0-9]+)\""@
}

/// Reads the form hash that recycle-bin requests carry from the bin's page.
pub fn formhash_from_html(html: &str) -> (r: Result<String, String>)
    ensures
        match regex_group(formhash_pattern(), html@, 1) {
            Some(h) => r matches Ok(v) && v@ == h,
            None => r matches Err(e) && e@ == "Could not find formhash in recycle bin HTML"@,
        },
{
    match regex_capture("name=\"formhash\"\\s+value=\"([a-fA-F0-9]+)\"", html, 1) {
        Some(h) => Ok(h),
        None => Err("Could not find formhash in recycle bin HTML".to_string()),
    }
}

/// An id the cloud answered with: its text, else its number in decimal,
/// else empty.
pub fn answered_id(text: Option<String>, number: Option<u64>) -> (r: String)
    ensures
        r@ == match text {
            Some(t) => t@,
            None => match number {
                Some(n) => crate::text::decimal(n as nat),
                None => Seq::<char>::empty(),
            },
        },
{
    match text {
        Some(t) => t,
        None => match number {
            Some(n) => {
                let cs = crate::text::decimal_chars(n);
                string_from_chars(cs.as_slice())
            },
            None => String::new(),
        },
    }
}

/// The scan for the tree's two cloud folders, `.heriheri` and
/// `.deeperdir`, after the folders `fs` (name and id): each sighting
/// replaces the id found so far, and the scan stops once both are found.
pub open spec fn root_scan(fs: Seq<(Seq<char>, Seq<char>)>) -> (Seq<char>, Seq<char>)
    decreases fs.len(),
{
    if fs.len() == 0 {
        (Seq::<char>::empty(), Seq::<char>::empty())
    } else {
        let st = root_scan(fs.drop_last());
        let f = fs.last();
        if st.0.len() > 0 && st.1.len() > 0 {
            st
        } else if f.0 == ".heriheri"@ {
            (f.1, st.1)
        } else if f.0 == ".deeperdir"@ {
            (st.0, f.1)
        } else {
            st
        }
    }
}

pub open spec fn folder_pairs(fs: Seq<(String, String)>) -> Seq<(Seq<char>, Seq<char>)> {
    fs.map_values(|f: (String, String)| (f.0@, f.1@))
}

/// The ids of the tree's root folder and overflow folder among the drive's
/// top folders (name, id); empty where one is missing.
pub fn root_folder_ids(folders: &Vec<(String, String)>) -> (r: (String, String))
    ensures
        (r.0@, r.1@) == root_scan(folder_pairs(folders@)),
{
    let mut root = String::new();
    let mut deeper = String::new();
    let mut i: usize = 0;
    while i < folders.len()
        invariant
            i <= folders@.len(),
            (root@, deeper@) == root_scan(folder_pairs(folders@.take(i as int))),
        decreases folders.len() - i,
    {
        let ghost before = (root@, deeper@);
        if chars_of(root.as_str()).len() > 0 && chars_of(deeper.as_str()).len() > 0 {
            proof {
                assert forall|j: nat| i <= j <= folders@.len() implies root_scan(folder_pairs(folders@.take(j as int))) == before by {
                    lemma_root_scan_stays(folders@, i as nat, j);
                }
                assert(folders@.take(folders@.len() as int) =~= folders@);
            }
            return (root, deeper);
        }
        let f = &folders[i];
        if str_eq(f.0.as_str(), ".heriheri") {
            root = f.1.clone();
        } else if str_eq(f.0.as_str(), ".deeperdir") {
            deeper = f.1.clone();
        }
        proof {
            assert(folder_pairs(folders@.take(i + 1)).drop_last() =~= folder_pairs(folders@.take(i as int)));
            assert(folder_pairs(folders@.take(i + 1)).last() == (folders@[i as int].0@, folders@[i as int].1@));
        }
        i = i + 1;
    }
    proof {
        assert(folders@.take(folders@.len() as int) =~= folders@);
    }
    (root, deeper)
}

proof fn lemma_root_scan_stays(fs: Seq<(String, String)>, i: nat, j: nat)
    requires
        i <= j <= fs.len(),
        root_scan(folder_pairs(fs.take(i as int))).0.len() > 0,
        root_scan(folder_pairs(fs.take(i as int))).1.len() > 0,
    ensures
        root_scan(folder_pairs(fs.take(j as int))) == root_scan(folder_pairs(fs.take(i as int))),
    decreases j - i,
{
    if j > i {
        lemma_root_scan_stays(fs, i, (j - 1) as nat);
        assert(folder_pairs(fs.take(j as int)).drop_last() =~= folder_pairs(fs.take(j - 1)));
    }
}

// ----------------------------------------------------------------------
// Logging in and registering
// ----------------------------------------------------------------------

pub open spec fn login_challenge_pattern() -> Seq<char> {
    "arg1='([A-F0-9]+)'"@
}

/// The clearance cookie that answers the challenge an accounts page may
/// carry: none when the page carries none, holds no readable `arg1`, or
/// one whose answer would cut a character in two.
pub open spec fn waf_clearance_spec(body: Seq<char>) -> Option<Seq<char>> {
    if has_infix(body, "arg1="@) {
        match regex_group(login_challenge_pattern(), body, 1) {
            Some(a) => if crate::waf::waf_cuttable(a) {
                Some("acw_sc__v2="@ + crate::waf::waf_answer(a))
            } else {
                None
            },
            None => None,
        }
    } else {
        None
    }
}

/// The clearance cookie for a request to the accounts pages, read from the
/// page fetched first.
pub fn waf_clearance(body: &str) -> (r: Option<String>)
    ensures
        opt_view(r) == waf_clearance_spec(body@),
{
    let b = chars_of(body);
    let marker = chars_of("arg1=");
    if !contains_seq(b.as_slice(), marker.as_slice()) {
        return None;
    }
    match regex_capture("arg1='([A-F0-9]+)'", body, 1) {
        Some(a) => {
            if crate::pages::waf_is_cuttable(a.as_str()) {
                let answer = crate::waf::solve_ali_waf(a.as_str());
                Some(concat("acw_sc__v2=", answer.as_str()))
            } else {
                None
            }
        },
        None => None,
    }
}

pub open spec fn opt_view(o: Option<String>) -> Option<Seq<char>> {
    match o {
        Some(s) => Some(s@),
        None => None,
    }
}

/// The clearance a login sends: none without a challenge; a challenge
/// without a readable `arg1` fails the login.
pub fn login_clearance(body: &str) -> (r: Result<Option<String>, String>)
    ensures
        has_infix(body@, "arg1="@) && regex_group(login_challenge_pattern(), body@, 1) is None ==> (r matches Err(
            e,
        ) && e@ == "WAF challenge detected, but could not extract arg1."@),
        !(has_infix(body@, "arg1="@) && regex_group(login_challenge_pattern(), body@, 1) is None) ==> (r matches Ok(
            c,
        ) && opt_view(c) == waf_clearance_spec(body@)),
{
    let b = chars_of(body);
    let marker = chars_of("arg1=");
    if contains_seq(b.as_slice(), marker.as_slice()) && regex_capture("arg1='([A-F0-9]+)'", body, 1).is_none() {
        return Err("WAF challenge detected, but could not extract arg1.".to_string());
    }
    Ok(waf_clearance(body))
}

/// The login form.
pub fn login_form(username: &str, password: &str) -> (r: Vec<FormField>)
    ensures
        form_view(r@) == seq![
            ("task"@, "uselogin"@),
            ("username"@, username@),
            ("password"@, password@),
            ("ref"@, "up.woozooo.com"@),
        ],
{
    let mut r: Vec<FormField> = Vec::new();
    r.push(form_field("task", "uselogin"));
    r.push(form_field("username", username));
    r.push(form_field("password", password));
    r.push(form_field("ref", "up.woozooo.com"));
    proof {
        assert(form_view(r@) =~= seq![
            ("task"@, "uselogin"@),
            ("username"@, username@),
            ("password"@, password@),
            ("ref"@, "up.woozooo.com"@),
        ]);
    }
    r
}

/// The value a `Set-Cookie` header gives cookie `name`: what precedes its
/// first `;`, with every `name=` taken out; none for another cookie.
pub open spec fn cookie_value_spec(header: Seq<char>, name_eq: Seq<char>) -> Option<Seq<char>> {
    if starts_with(header, name_eq) {
        Some(without_all(crate::text::before_first(header, ';'), name_eq))
    } else {
        None
    }
}

/// The session's two cookies among the `Set-Cookie` headers of the login
/// answer, the last of each winning; empty where one is missing.
pub open spec fn login_cookie_scan(headers: Seq<Seq<char>>) -> (Seq<char>, Seq<char>)
    decreases headers.len(),
{
    if headers.len() == 0 {
        (Seq::<char>::empty(), Seq::<char>::empty())
    } else {
        let st = login_cookie_scan(headers.drop_last());
        let h = headers.last();
        let y = match cookie_value_spec(h, "ylogin="@) {
            Some(v) => v,
            None => st.0,
        };
        let p = match cookie_value_spec(h, "phpdisk_info="@) {
            Some(v) => v,
            None => st.1,
        };
        (y, p)
    }
}

fn cookie_value(header: &str, name_eq: &str) -> (r: Option<String>)
    requires
        name_eq@.len() > 0,
    ensures
        opt_view(r) == cookie_value_spec(header@, name_eq@),
{
    let h = chars_of(header);
    let p = chars_of(name_eq);
    if has_prefix(h.as_slice(), p.as_slice()) {
        let first = crate::text::before_first_chars(h.as_slice(), ';');
        let fs = string_from_chars(first.as_slice());
        Some(remove_all(fs.as_str(), name_eq))
    } else {
        None
    }
}

pub open spec fn header_views(v: Seq<String>) -> Seq<Seq<char>> {
    v.map_values(|s: String| s@)
}

/// The `ylogin` and `phpdisk_info` cookies a login answer sets.
pub fn login_cookies(set_cookies: &Vec<String>) -> (r: (String, String))
    ensures
        (r.0@, r.1@) == login_cookie_scan(header_views(set_cookies@)),
{
    let mut y = String::new();
    let mut p = String::new();
    proof {
        reveal_strlit("ylogin=");
        reveal_strlit("phpdisk_info=");
    }
    let mut i: usize = 0;
    while i < set_cookies.len()
        invariant
            i <= set_cookies@.len(),
            (y@, p@) == login_cookie_scan(header_views(set_cookies@.take(i as int))),
            "ylogin="@.len() > 0,
            "phpdisk_info="@.len() > 0,
        decreases set_cookies.len() - i,
    {
        let h = set_cookies[i].as_str();
        proof {
            assert(header_views(set_cookies@.take(i + 1)).drop_last() =~= header_views(set_cookies@.take(i as int)));
            assert(header_views(set_cookies@.take(i + 1)).last() == set_cookies@[i as int]@);
        }
        match cookie_value(h, "ylogin=") {
            Some(v) => {
                y = v;
            },
            None => {},
        }
        match cookie_value(h, "phpdisk_info=") {
            Some(v) => {
                p = v;
            },
            None => {},
        }
        i = i + 1;
    }
    proof {
        assert(set_cookies@.take(set_cookies@.len() as int) =~= set_cookies@);
    }
    (y, p)
}

/// A login succeeds only with both cookies; otherwise it fails quoting the
/// server's answer.
pub fn login_result(ylogin: String, phpdisk_info: String, body: &str) -> (r: Result<(String, String), String>)
    ensures
        ylogin@.len() > 0 && phpdisk_info@.len() > 0 ==> r == Ok::<(String, String), String>((ylogin, phpdisk_info)),
        !(ylogin@.len() > 0 && phpdisk_info@.len() > 0) ==> (r matches Err(e) && e@ == "Login failed. Server response: "@
            + body@),
{
    if chars_of(ylogin.as_str()).len() == 0 || chars_of(phpdisk_info.as_str()).len() == 0 {
        return Err(concat("Login failed. Server response: ", body));
    }
    Ok((ylogin, phpdisk_info))
}

/// Asks for a registration code by SMS.
pub fn register_sms_form(phone: &str) -> (r: Vec<FormField>)
    ensures
        form_view(r@) == seq![("task"@, "register"@), ("phone"@, phone@)],
{
    let mut r: Vec<FormField> = Vec::new();
    r.push(form_field("task", "register"));
    r.push(form_field("phone", phone));
    proof {
        assert(form_view(r@) =~= seq![("task"@, "register"@), ("phone"@, phone@)]);
    }
    r
}

/// Checks the registration code.
pub fn verify_code_form(phone: &str, code: &str) -> (r: Vec<FormField>)
    ensures
        form_view(r@) == seq![("task"@, "update_code"@), ("phone"@, phone@), ("verycode"@, code@)],
{
    let mut r: Vec<FormField> = Vec::new();
    r.push(form_field("task", "update_code"));
    r.push(form_field("phone", phone));
    r.push(form_field("verycode", code));
    proof {
        assert(form_view(r@) =~= seq![("task"@, "update_code"@), ("phone"@, phone@), ("verycode"@, code@)]);
    }
    r
}

/// Sets the new account's password.
pub fn set_password_form(phone: &str, code: &str, password: &str) -> (r: Vec<FormField>)
    ensures
        form_view(r@) == seq![
            ("task"@, "update_pwd"@),
            ("phone"@, phone@),
            ("verycode"@, code@),
            ("password1"@, password@),
            ("password2"@, password@),
        ],
{
    let mut r: Vec<FormField> = Vec::new();
    r.push(form_field("task", "update_pwd"));
    r.push(form_field("phone", phone));
    r.push(form_field("verycode", code));
    r.push(form_field("password1", password));
    r.push(form_field("password2", password));
    proof {
        assert(form_view(r@) =~= seq![
            ("task"@, "update_pwd"@),
            ("phone"@, phone@),
            ("verycode"@, code@),
            ("password1"@, password@),
            ("password2"@, password@),
        ]);
    }
    r
}

/// What the answer to an SMS request reports: its message, or a default
/// one for each outcome.
pub fn sms_result(zt: Option<i64>, msgs: Option<String>) -> (r: Result<String, String>)
    ensures
        zt == Some(1i64) ==> (r matches Ok(m) && m@ == match msgs {
            Some(t) => t@,
            None => "SMS sent"@,
        }),
        zt != Some(1i64) ==> (r matches Err(m) && m@ == match msgs {
            Some(t) => t@,
            None => "Failed to send SMS"@,
        }),
{
    if zt == Some(1i64) {
        match msgs {
            Some(t) => Ok(t),
            None => Ok("SMS sent".to_string()),
        }
    } else {
        match msgs {
            Some(t) => Err(t),
            None => Err("Failed to send SMS".to_string()),
        }
    }
}

/// The outcome of a registration from the statuses of its two steps: the
/// second is only sent when the first succeeded.
pub fn register_result(code_zt: Option<i64>, password_zt: Option<i64>) -> (r: Result<bool, String>)
    ensures
        code_zt != Some(1i64) ==> (r matches Err(e) && e@ == "Invalid verification code"@),
        code_zt == Some(1i64) && password_zt == Some(1i64) ==> r == Ok::<bool, String>(true),
        code_zt == Some(1i64) && password_zt != Some(1i64) ==> (r matches Err(e) && e@ == "Failed to set password"@),
{
    if code_zt != Some(1i64) {
        return Err("Invalid verification code".to_string());
    }
    if password_zt == Some(1i64) {
        Ok(true)
    } else {
        Err("Failed to set password".to_string())
    }
}

} // verus!
