//! The dashboard's published view: categories, API-key status, and how a probe's
//! observation is classified and ages.
use vstd::prelude::*;
use vstd::utf8::is_ascii_chars;
use vstd::relations::{sorted_by, total_ordering};
use crate::text::{chars_of, push_char, owned, string_of};
use crate::config::{is_white_space, is_white_space_char, str_eq};
use crate::models::TargetStatus;
use crate::http::{decimal, decimal_string};
use crate::history::ids_view;

verus! {

// ---------------------------------------------------------------------------------------------
// Trimming
// ---------------------------------------------------------------------------------------------

pub open spec fn trim_start_ws(s: Seq<char>) -> Seq<char>
    decreases s.len(),
{
    if s.len() > 0 && is_white_space(s[0]) {
        trim_start_ws(s.drop_first())
    } else {
        s
    }
}

pub open spec fn trim_end_ws(s: Seq<char>) -> Seq<char>
    decreases s.len(),
{
    if s.len() > 0 && is_white_space(s.last()) {
        trim_end_ws(s.drop_last())
    } else {
        s
    }
}

/// `s` without leading and trailing whitespace, as `str::trim` returns it.
pub open spec fn trim_spec(s: Seq<char>) -> Seq<char> {
    trim_end_ws(trim_start_ws(s))
}

/// `str::trim`, as an owned string.
pub fn trim(s: &str) -> (r: String)
    ensures
        r@ == trim_spec(s@),
{
    let cs = chars_of(s);
    let mut lo: usize = 0;
    assert(cs@.subrange(0, cs.len() as int) =~= cs@);
    while lo < cs.len() && is_white_space_char(cs[lo])
        invariant
            lo <= cs.len(),
            cs@ == s@,
            trim_start_ws(s@) == trim_start_ws(cs@.subrange(lo as int, cs.len() as int)),
        decreases cs.len() - lo,
    {
        assert(cs@.subrange(lo as int, cs.len() as int).drop_first() =~= cs@.subrange(lo + 1, cs.len() as int));
        lo = lo + 1;
    }
    let mut hi = cs.len();
    assert(trim_start_ws(cs@.subrange(lo as int, hi as int)) == cs@.subrange(lo as int, hi as int));
    while hi > lo && is_white_space_char(cs[hi - 1])
        invariant
            lo <= hi <= cs.len(),
            cs@ == s@,
            trim_spec(s@) == trim_end_ws(cs@.subrange(lo as int, hi as int)),
        decreases hi,
    {
        assert(cs@.subrange(lo as int, hi as int).drop_last() =~= cs@.subrange(lo as int, hi - 1));
        hi = hi - 1;
    }
    let mut out = String::new();
    let mut k = lo;
    while k < hi
        invariant
            lo <= k <= hi <= cs.len(),
            out@ == cs@.subrange(lo as int, k as int),
        decreases hi - k,
    {
        push_char(&mut out, cs[k]);
        k = k + 1;
        assert(out@ =~= cs@.subrange(lo as int, k as int));
    }
    out
}

// ---------------------------------------------------------------------------------------------
// API keys
// ---------------------------------------------------------------------------------------------

/// How a key is shown: an ASCII key longer than 14 bytes by its first 8 and last 4 characters,
/// any other non-empty key as `***`, and no key as `none`.
pub open spec fn mask_key_spec(key: Seq<char>) -> Seq<char> {
    if is_ascii_chars(key) && key.len() > 14 {
        key.take(8) + "..."@ + key.skip(key.len() - 4)
    } else if key.len() > 0 {
        "***"@
    } else {
        "none"@
    }
}

/// A masked key gives away at most twelve characters: a long ASCII key (over 14 characters)
/// shows its first eight and its last four around `...`; any other key is `***`; no key is
/// `none`. A mask is never longer than 15 characters.
pub proof fn masks_hide_the_key(key: Seq<char>)
    ensures
        mask_key_spec(key).len() <= 15,
        is_ascii_chars(key) && key.len() > 14 ==> {
            let m = mask_key_spec(key);
            &&& m.len() == 15
            &&& m.take(8) == key.take(8)
            &&& m.subrange(8, 11) == seq!['.', '.', '.']
            &&& m.skip(11) == key.skip(key.len() - 4)
        },
        !(is_ascii_chars(key) && key.len() > 14) && key.len() > 0 ==> mask_key_spec(key) == seq!['*', '*', '*'],
        key.len() == 0 ==> mask_key_spec(key) == seq!['n', 'o', 'n', 'e'],
{
    reveal_strlit("...");
    reveal_strlit("***");
    reveal_strlit("none");
    let m = mask_key_spec(key);
    if is_ascii_chars(key) && key.len() > 14 {
        assert(m.take(8) =~= key.take(8));
        assert(m.subrange(8, 11) =~= seq!['.', '.', '.']);
        assert(m.skip(11) =~= key.skip(key.len() - 4));
    } else if key.len() > 0 {
        assert(m =~= seq!['*', '*', '*']);
    } else {
        assert(m =~= seq!['n', 'o', 'n', 'e']);
    }
}

/// Masks an API key for display.
pub fn mask_key(key: &str) -> (r: String)
    ensures
        r@ == mask_key_spec(key@),
{
    let cs = chars_of(key);
    let n = cs.len();
    if key.is_ascii() && n > 14 {
        let mut out = String::new();
        let mut i: usize = 0;
        while i < 8
            invariant
                i <= 8 < n,
                n == cs.len(),
                cs@ == key@,
                out@ == cs@.take(i as int),
            decreases 8 - i,
        {
            push_char(&mut out, cs[i]);
            i = i + 1;
            assert(out@ =~= cs@.take(i as int));
        }
        out.append("...");
        let ghost head = out@;
        assert(head == key@.take(8) + "..."@);
        let mut j: usize = n - 4;
        while j < n
            invariant
                8 < n,
                n - 4 <= j <= n,
                n == cs.len(),
                cs@ == key@,
                out@ == head + cs@.subrange(n - 4, j as int),
            decreases n - j,
        {
            push_char(&mut out, cs[j]);
            j = j + 1;
            assert(out@ =~= head + cs@.subrange(n - 4, j as int));
        }
        assert(cs@.subrange(n - 4, n as int) =~= cs@.skip(n - 4));
        assert(out@ == key@.take(8) + "..."@ + key@.skip(key@.len() - 4));
        out
    } else if !key.is_empty() {
        owned("***")
    } else {
        owned("none")
    }
}

/// What the dashboard shows about the API key in use.
#[derive(Clone, Debug)]
pub struct KeyStatus {
    pub has_custom_key: bool,
    pub active_key_masked: String,
    pub default_key_masked: String,
}

/// The key status: the custom key, when one is set, is the active key.
pub fn key_status(custom: &Option<String>, default_key: &str) -> (r: KeyStatus)
    ensures
        r.has_custom_key == custom is Some,
        r.active_key_masked@ == mask_key_spec(match custom {
            Some(k) => k@,
            None => default_key@,
        }),
        r.default_key_masked@ == mask_key_spec(default_key@),
{
    let active = match custom {
        Some(k) => mask_key(k.as_str()),
        None => mask_key(default_key),
    };
    KeyStatus { has_custom_key: custom.is_some(), active_key_masked: active, default_key_masked: mask_key(default_key) }
}

/// What a request to set the API key asks for.
#[derive(PartialEq, Eq, Debug)]
pub enum KeyUpdate {
    /// Go back to the configured key.
    Reset,
    /// Verify this key with Jev, and use it if Jev accepts it.
    Verify(String),
}

/// Reads a key request: no key, or a key that trims to nothing, resets to the configured key;
/// any other key is trimmed and verified first.
pub fn key_update(requested: &Option<String>) -> (r: KeyUpdate)
    ensures
        match r {
            KeyUpdate::Reset => requested matches Some(k) ==> trim_spec(k@).len() == 0,
            KeyUpdate::Verify(k) => requested is Some && k@ == trim_spec(requested->0@) && k@.len() > 0,
        },
{
    match requested {
        None => KeyUpdate::Reset,
        Some(k) => {
            let t = trim(k.as_str());
            if t.as_str().is_empty() {
                KeyUpdate::Reset
            } else {
                KeyUpdate::Verify(t)
            }
        },
    }
}

// ---------------------------------------------------------------------------------------------
// Categories
// ---------------------------------------------------------------------------------------------

/// A dashboard category that probes can be sorted into.
#[derive(Clone, Debug)]
pub struct CategoryDefinition {
    pub id: String,
    pub label: String,
    pub description: String,
    /// Translation key of a built-in category's label.
    pub label_key: Option<String>,
}

pub struct CategoryView {
    pub id: Seq<char>,
    pub label: Seq<char>,
    pub description: Seq<char>,
    pub label_key: Option<Seq<char>>,
}

pub open spec fn opt_str_view(o: Option<String>) -> Option<Seq<char>> {
    match o {
        Some(s) => Some(s@),
        None => None,
    }
}

impl View for CategoryDefinition {
    type V = CategoryView;

    open spec fn view(&self) -> CategoryView {
        CategoryView {
            id: self.id@,
            label: self.label@,
            description: self.description@,
            label_key: opt_str_view(self.label_key),
        }
    }
}

pub open spec fn categories_view(v: Seq<CategoryDefinition>) -> Seq<CategoryView> {
    v.map_values(|c: CategoryDefinition| c@)
}

pub open spec fn builtin(id: &str, label: &str, description: &str, key: &str) -> CategoryView {
    CategoryView { id: id@, label: label@, description: description@, label_key: Some(key@) }
}

/// The five built-in categories, in dashboard order.
pub open spec fn default_categories_spec() -> Seq<CategoryView> {
    seq![
        builtin("ai_compute", "AI & Model Inference",
            "GPU servers, LLM inference endpoints, local models, voice synthesis", "category.ai_compute"),
        builtin("virtualization", "Hypervisors & Storage",
            "Proxmox cluster nodes, virtual machines, cluster quorum, shared NFS", "category.virtualization"),
        builtin("network_edge", "Ingress & Network Egress",
            "Caddy reverse proxy, egress gateways (gost/xray), VPN tunnels, DNS", "category.network_edge"),
        builtin("observability", "Monitoring & Observability",
            "Monitoring dashboards (Beszel, Pulse, Hermes), metrics exporters", "category.observability"),
        builtin("workstations", "Workstations & Desktops",
            "Developer desktops, jump hosts, test desktop VMs, client machines", "category.workstations"),
    ]
}

fn category(id: &str, label: &str, description: &str, key: &str) -> (r: CategoryDefinition)
    ensures
        r@ == builtin(id, label, description, key),
{
    CategoryDefinition { id: owned(id), label: owned(label), description: owned(description), label_key: Some(owned(key)) }
}

/// The built-in categories.
pub fn default_categories() -> (r: Vec<CategoryDefinition>)
    ensures
        categories_view(r@) == default_categories_spec(),
{
    let mut v: Vec<CategoryDefinition> = Vec::new();
    v.push(category("ai_compute", "AI & Model Inference",
        "GPU servers, LLM inference endpoints, local models, voice synthesis", "category.ai_compute"));
    v.push(category("virtualization", "Hypervisors & Storage",
        "Proxmox cluster nodes, virtual machines, cluster quorum, shared NFS", "category.virtualization"));
    v.push(category("network_edge", "Ingress & Network Egress",
        "Caddy reverse proxy, egress gateways (gost/xray), VPN tunnels, DNS", "category.network_edge"));
    v.push(category("observability", "Monitoring & Observability",
        "Monitoring dashboards (Beszel, Pulse, Hermes), metrics exporters", "category.observability"));
    v.push(category("workstations", "Workstations & Desktops",
        "Developer desktops, jump hosts, test desktop VMs, client machines", "category.workstations"));
    assert(categories_view(v@) =~= default_categories_spec());
    v
}


/// What a category request asks for, once read from the query string or the JSON body.
#[derive(Clone, Debug)]
pub struct CategoryRequest {
    pub id: String,
    pub delete: bool,
    pub label: Option<String>,
    pub description: Option<String>,
}

/// A change to the category list.
#[derive(Clone, Debug)]
pub enum CategoryEdit {
    /// Remove the category with this id.
    Delete(String),
    /// Add this category, or replace the one with its id.
    Upsert(CategoryDefinition),
}

/// Why a category request is refused; each is answered `400` with this message and code.
#[derive(PartialEq, Eq, Structural, Clone, Copy, Debug)]
pub enum CategoryRefusal {
    MissingId,
    InvalidJson,
    InvalidId,
    MissingLabel,
}

impl CategoryRefusal {
    pub open spec fn message_spec(self) -> Seq<char> {
        match self {
            CategoryRefusal::MissingId => "Missing category id in DELETE request"@,
            CategoryRefusal::InvalidJson => "Invalid JSON"@,
            CategoryRefusal::InvalidId => "Category ID cannot be empty"@,
            CategoryRefusal::MissingLabel => "Category label is required"@,
        }
    }

    pub open spec fn code_spec(self) -> Seq<char> {
        match self {
            CategoryRefusal::MissingId => "missing_id"@,
            CategoryRefusal::InvalidJson => "invalid_json"@,
            CategoryRefusal::InvalidId => "invalid_id"@,
            CategoryRefusal::MissingLabel => "missing_label"@,
        }
    }

    /// The error message sent to the dashboard.
    pub fn message(&self) -> (r: &'static str)
        ensures
            r@ == self.message_spec(),
    {
        match self {
            CategoryRefusal::MissingId => "Missing category id in DELETE request",
            CategoryRefusal::InvalidJson => "Invalid JSON",
            CategoryRefusal::InvalidId => "Category ID cannot be empty",
            CategoryRefusal::MissingLabel => "Category label is required",
        }
    }

    /// The machine-readable error code sent with the message.
    pub fn code(&self) -> (r: &'static str)
        ensures
            r@ == self.code_spec(),
    {
        match self {
            CategoryRefusal::MissingId => "missing_id",
            CategoryRefusal::InvalidJson => "invalid_json",
            CategoryRefusal::InvalidId => "invalid_id",
            CategoryRefusal::MissingLabel => "missing_label",
        }
    }
}

/// A `DELETE` without a body names its category in the query string.
pub fn delete_request_from_query(target: &str) -> (r: Result<CategoryRequest, CategoryRefusal>)
    ensures
        match r {
            Ok(req) => crate::http::query_id_spec(target@) == Some(req.id@) && req.delete && req.label is None
                && req.description is None,
            Err(e) => crate::http::query_id_spec(target@) is None && e == CategoryRefusal::MissingId,
        },
{
    match crate::http::query_id(target) {
        Some(id) => Ok(CategoryRequest { id, delete: true, label: None, description: None }),
        None => Err(CategoryRefusal::MissingId),
    }
}

/// The edit a category request makes: the id is trimmed and must not be empty; a deletion
/// needs nothing more; anything else needs a label that is not blank, and keeps the trimmed
/// label and description (an absent description is empty). A category made here has no
/// translation key.
pub fn category_edit(req: &CategoryRequest) -> (r: Result<CategoryEdit, CategoryRefusal>)
    ensures
        trim_spec(req.id@).len() == 0 ==> r == Err::<CategoryEdit, CategoryRefusal>(CategoryRefusal::InvalidId),
        trim_spec(req.id@).len() > 0 && req.delete ==> (r matches Ok(CategoryEdit::Delete(id)) && id@ == trim_spec(req.id@)),
        trim_spec(req.id@).len() > 0 && !req.delete ==> match req.label {
            Some(l) if trim_spec(l@).len() > 0 => r matches Ok(CategoryEdit::Upsert(c)) && c@ == CategoryView {
                id: trim_spec(req.id@),
                label: trim_spec(l@),
                description: match req.description {
                    Some(d) => trim_spec(d@),
                    None => Seq::<char>::empty(),
                },
                label_key: None,
            },
            _ => r == Err::<CategoryEdit, CategoryRefusal>(CategoryRefusal::MissingLabel),
        },
{
    let id = trim(req.id.as_str());
    if id.as_str().is_empty() {
        return Err(CategoryRefusal::InvalidId);
    }
    if req.delete {
        return Ok(CategoryEdit::Delete(id));
    }
    let label = match &req.label {
        Some(l) => {
            let t = trim(l.as_str());
            if t.as_str().is_empty() {
                return Err(CategoryRefusal::MissingLabel);
            }
            t
        },
        None => {
            return Err(CategoryRefusal::MissingLabel);
        },
    };
    let description = match &req.description {
        Some(d) => trim(d.as_str()),
        None => String::new(),
    };
    Ok(CategoryEdit::Upsert(CategoryDefinition { id, label, description, label_key: None }))
}

fn same_text(a: &String, b: &String) -> (r: bool)
    ensures
        r == (a@ == b@),
{
    crate::config::str_eq(a.as_str(), b.as_str())
}

/// The categories other than the one with id `id`, in order.
pub open spec fn without_id(cats: Seq<CategoryView>, id: Seq<char>) -> Seq<CategoryView>
    decreases cats.len(),
{
    if cats.len() == 0 {
        Seq::empty()
    } else if cats.last().id == id {
        without_id(cats.drop_last(), id)
    } else {
        without_id(cats.drop_last(), id).push(cats.last())
    }
}

/// Position of the first category with id `id`, or the length when there is none.
pub open spec fn id_index(cats: Seq<CategoryView>, id: Seq<char>) -> nat
    decreases cats.len(),
{
    if cats.len() == 0 {
        0
    } else if cats[0].id == id {
        0
    } else {
        1 + id_index(cats.drop_first(), id)
    }
}

/// The list after `cat` was added: it replaces the first category with its id, or comes last.
pub open spec fn upserted(cats: Seq<CategoryView>, cat: CategoryView) -> Seq<CategoryView> {
    let i = id_index(cats, cat.id);
    if i < cats.len() { cats.update(i as int, cat) } else { cats.push(cat) }
}

proof fn lemma_id_index(cats: Seq<CategoryView>, id: Seq<char>, k: int)
    requires
        0 <= k <= cats.len(),
        forall|i: int| 0 <= i < k ==> cats[i].id != id,
        k == cats.len() || cats[k].id == id,
    ensures
        id_index(cats, id) == k,
    decreases k,
{
    if k > 0 {
        lemma_id_index(cats.drop_first(), id, k - 1);
    }
}

/// Removes the category with id `id`.
pub fn remove_category(cats: &mut Vec<CategoryDefinition>, id: &String)
    ensures
        categories_view(final(cats)@) == without_id(categories_view(old(cats)@), id@),
{
    let ghost orig = categories_view(cats@);
    let mut kept: Vec<CategoryDefinition> = Vec::new();
    let mut rest: Vec<CategoryDefinition> = Vec::new();
    std::mem::swap(&mut rest, cats);
    assert(categories_view(rest@) == orig);
    let mut i: usize = 0;
    while i < rest.len()
        invariant
            i <= rest.len(),
            categories_view(rest@) == orig,
            categories_view(kept@) == without_id(orig.take(i as int), id@),
        decreases rest.len() - i,
    {
        assert(orig.take(i + 1).drop_last() =~= orig.take(i as int));
        assert(orig.take(i + 1).last() == rest@[i as int]@);
        if !same_text(&rest[i].id, id) {
            let c = CategoryDefinition {
                id: rest[i].id.clone(),
                label: rest[i].label.clone(),
                description: rest[i].description.clone(),
                label_key: match &rest[i].label_key {
                    Some(k) => Some(k.clone()),
                    None => None,
                },
            };
            let ghost before = categories_view(kept@);
            kept.push(c);
            assert(categories_view(kept@) =~= before.push(rest@[i as int]@));
        }
        i = i + 1;
    }
    assert(orig.take(i as int) =~= orig);
    *cats = kept;
}

/// Adds `cat`, replacing the category with the same id if there is one.
pub fn upsert_category(cats: &mut Vec<CategoryDefinition>, cat: CategoryDefinition)
    ensures
        categories_view(final(cats)@) == upserted(categories_view(old(cats)@), cat@),
{
    let ghost orig = categories_view(cats@);
    let mut i: usize = 0;
    while i < cats.len()
        invariant
            i <= cats.len(),
            categories_view(cats@) == orig,
            orig == categories_view(old(cats)@),
            forall|j: int| 0 <= j < i ==> orig[j].id != cat.id@,
        decreases cats.len() - i,
    {
        assert(orig[i as int] == cats@[i as int]@);
        if same_text(&cats[i].id, &cat.id) {
            proof {
                lemma_id_index(orig, cat.id@, i as int);
            }
            let ghost cv = cat@;
            assert(upserted(orig, cv) == orig.update(i as int, cv));
            cats.set(i, cat);
            assert(categories_view(cats@) =~= orig.update(i as int, cv));
            return;
        }
        i = i + 1;
    }
    proof {
        lemma_id_index(orig, cat.id@, i as int);
    }
    let ghost cv = cat@;
    cats.push(cat);
    assert(categories_view(cats@) =~= orig.push(cv));
}


/// The first category with id `id`, as a lookup by id finds it.
pub open spec fn category_with_id(cats: Seq<CategoryView>, id: Seq<char>) -> Option<CategoryView> {
    if id_index(cats, id) < cats.len() { Some(cats[id_index(cats, id) as int]) } else { None }
}

proof fn lemma_id_index_bounds(cats: Seq<CategoryView>, id: Seq<char>)
    ensures
        id_index(cats, id) <= cats.len(),
        forall|j: int| 0 <= j < id_index(cats, id) ==> cats[j].id != id,
        id_index(cats, id) < cats.len() ==> cats[id_index(cats, id) as int].id == id,
    decreases cats.len(),
{
    if cats.len() > 0 && cats[0].id != id {
        let t = cats.drop_first();
        lemma_id_index_bounds(t, id);
        assert forall|j: int| 0 <= j < id_index(cats, id) implies cats[j].id != id by {
            if j > 0 {
                assert(cats[j] == t[j - 1]);
            }
        }
    }
}

proof fn lemma_lookup_push(s: Seq<CategoryView>, x: CategoryView, id: Seq<char>)
    ensures
        category_with_id(s.push(x), id) == (match category_with_id(s, id) {
            Some(c) => Some(c),
            None => if x.id == id { Some(x) } else { None },
        }),
{
    let u = s.push(x);
    lemma_id_index_bounds(s, id);
    let k = id_index(s, id);
    if k < s.len() {
        lemma_id_index(u, id, k as int);
    } else if x.id == id {
        lemma_id_index(u, id, s.len() as int);
    } else {
        lemma_id_index(u, id, u.len() as int);
    }
}

/// Reading back an added category: after `upserted`, a lookup of its id finds it, and a
/// lookup of any other id finds what it found before.
pub proof fn added_category_is_found(cats: Seq<CategoryView>, cat: CategoryView, other: Seq<char>)
    requires
        other != cat.id,
    ensures
        category_with_id(upserted(cats, cat), cat.id) == Some(cat),
        category_with_id(upserted(cats, cat), other) == category_with_id(cats, other),
{
    lemma_id_index_bounds(cats, cat.id);
    lemma_id_index_bounds(cats, other);
    let i = id_index(cats, cat.id);
    let k = id_index(cats, other);
    let u = upserted(cats, cat);
    if i < cats.len() {
        lemma_id_index(u, cat.id, i as int);
        assert(k != i);
        if k < cats.len() {
            lemma_id_index(u, other, k as int);
        } else {
            lemma_id_index(u, other, u.len() as int);
        }
    } else {
        lemma_lookup_push(cats, cat, cat.id);
        lemma_lookup_push(cats, cat, other);
    }
}

/// Reading back a deletion: after `without_id`, a lookup of the deleted id finds nothing, and
/// a lookup of any other id finds what it found before.
pub proof fn deleted_category_is_gone(cats: Seq<CategoryView>, id: Seq<char>, other: Seq<char>)
    requires
        other != id,
    ensures
        category_with_id(without_id(cats, id), id) is None,
        category_with_id(without_id(cats, id), other) == category_with_id(cats, other),
    decreases cats.len(),
{
    if cats.len() == 0 {
    } else {
        let d = cats.drop_last();
        let l = cats.last();
        assert(cats =~= d.push(l));
        deleted_category_is_gone(d, id, other);
        lemma_lookup_push(d, l, other);
        if l.id != id {
            lemma_lookup_push(without_id(d, id), l, id);
            lemma_lookup_push(without_id(d, id), l, other);
        }
    }
}

proof fn lemma_without_updated(s: Seq<CategoryView>, i: int, x: CategoryView, id: Seq<char>)
    requires
        0 <= i < s.len(),
        s[i].id == id,
        x.id == id,
    ensures
        without_id(s.update(i, x), id) == without_id(s, id),
    decreases s.len(),
{
    let u = s.update(i, x);
    if i == s.len() - 1 {
        assert(u.drop_last() =~= s.drop_last());
    } else {
        assert(u.drop_last() =~= s.drop_last().update(i, x));
        lemma_without_updated(s.drop_last(), i, x, id);
    }
}

/// Deleting a category undoes adding it: the list is then what deleting alone would leave.
pub proof fn delete_undoes_add(cats: Seq<CategoryView>, cat: CategoryView)
    ensures
        without_id(upserted(cats, cat), cat.id) == without_id(cats, cat.id),
{
    lemma_id_index_bounds(cats, cat.id);
    let i = id_index(cats, cat.id);
    if i < cats.len() {
        lemma_without_updated(cats, i as int, cat, cat.id);
    } else {
        assert(cats.push(cat).drop_last() =~= cats);
    }
}


// ---------------------------------------------------------------------------------------------
// Observations
// ---------------------------------------------------------------------------------------------

/// What the dashboard says of a probe's latest observation.
#[derive(PartialEq, Eq, Structural, Clone, Copy, Debug)]
pub enum ObservationState {
    Healthy,
    Degraded,
    Failed,
    Unknown,
    Stale,
}

/// Whether the advisor's latest decision can be shown.
#[derive(PartialEq, Eq, Structural, Clone, Copy, Debug)]
pub enum AdvisorState {
    Ready,
    Evaluating,
    Unavailable,
    InvalidResponse,
}

/// What a probe's metrics say about the run itself.
#[derive(PartialEq, Eq, Structural, Clone, Copy, Debug)]
pub struct ProbeSignals {
    /// The metrics carry an `internal_error` entry.
    pub internal_error: bool,
    /// The metrics carry `parse_error: true`.
    pub parse_error: bool,
    /// The metrics carry an HTTP status code.
    pub has_status_code: bool,
}

/// How a run is shown: a run whose output could not be read is unknown; a refused HTTP
/// status is a failure; a timeout or an unreachable target is unknown, not a failure.
pub open spec fn observation_spec(status: TargetStatus, sig: ProbeSignals) -> ObservationState {
    if sig.internal_error || sig.parse_error {
        ObservationState::Unknown
    } else {
        match status {
            TargetStatus::Online => ObservationState::Healthy,
            TargetStatus::Degraded => ObservationState::Degraded,
            TargetStatus::Unreachable => if sig.has_status_code { ObservationState::Failed } else { ObservationState::Unknown },
            _ => ObservationState::Unknown,
        }
    }
}

/// How a probe run is classified: it is healthy exactly when it came back online and its
/// metrics report no internal or parse error; it is failed only when an unreachable run carries
/// an HTTP status; a run whose metrics report an error, a timeout and an unreachable run
/// without a status are unknown (a transport failure is not a confirmed outage); a degraded run
/// without errors is degraded; nothing is classified stale here.
pub proof fn probe_runs_are_classified_by_evidence(status: TargetStatus, sig: ProbeSignals)
    ensures
        (observation_spec(status, sig) == ObservationState::Healthy)
            <==> (status == TargetStatus::Online && !sig.internal_error && !sig.parse_error),
        (observation_spec(status, sig) == ObservationState::Failed)
            <==> (status == TargetStatus::Unreachable && sig.has_status_code && !sig.internal_error && !sig.parse_error),
        (observation_spec(status, sig) == ObservationState::Degraded)
            <==> (status == TargetStatus::Degraded && !sig.internal_error && !sig.parse_error),
        sig.internal_error || sig.parse_error || status == TargetStatus::Timeout || status == TargetStatus::Unknown
            ==> observation_spec(status, sig) == ObservationState::Unknown,
        observation_spec(status, sig) != ObservationState::Stale,
{
}

/// Classifies a probe run for the dashboard.
pub fn observation(status: TargetStatus, sig: ProbeSignals) -> (r: ObservationState)
    ensures
        r == observation_spec(status, sig),
{
    if sig.internal_error || sig.parse_error {
        return ObservationState::Unknown;
    }
    match status {
        TargetStatus::Online => ObservationState::Healthy,
        TargetStatus::Degraded => ObservationState::Degraded,
        TargetStatus::Unreachable => if sig.has_status_code { ObservationState::Failed } else { ObservationState::Unknown },
        _ => ObservationState::Unknown,
    }
}

/// The public message and code that replace a probe's own error text.
pub open spec fn target_error_spec(state: ObservationState) -> (Seq<char>, Seq<char>) {
    match state {
        ObservationState::Failed => ("Probe received an unexpected HTTP status."@, "unexpected_http_status"@),
        ObservationState::Degraded => (
            "Probe reported degraded conditions. Check local logs for details."@,
            "probe_degraded"@,
        ),
        _ => (
            "Observation unavailable. Check observer path and collector logs; service failure is not confirmed."@,
            "observation_unavailable"@,
        ),
    }
}

/// Error codes tell the cases apart: an unexpected HTTP status, a degraded probe and an
/// unavailable observation each have their own code; every other state is reported as an
/// unavailable observation, never as a confirmed failure.
pub proof fn error_codes_tell_cases_apart(a: ObservationState, b: ObservationState)
    ensures
        target_error_spec(ObservationState::Failed).1 == "unexpected_http_status"@,
        target_error_spec(ObservationState::Degraded).1 == "probe_degraded"@,
        a != ObservationState::Failed && a != ObservationState::Degraded ==> target_error_spec(a).1 == "observation_unavailable"@,
        target_error_spec(a).1 == target_error_spec(b).1 ==> (a == ObservationState::Failed) == (b == ObservationState::Failed)
            && (a == ObservationState::Degraded) == (b == ObservationState::Degraded),
{
    reveal_strlit("unexpected_http_status");
    reveal_strlit("probe_degraded");
    reveal_strlit("observation_unavailable");
    assert("unexpected_http_status"@.len() == 22 && "probe_degraded"@.len() == 14 && "observation_unavailable"@.len() == 23);
}

/// The message and code shown for a probe that reported an error; raw provider errors are
/// never published.
pub fn target_error(state: ObservationState) -> (r: (&'static str, &'static str))
    ensures
        r.0@ == target_error_spec(state).0,
        r.1@ == target_error_spec(state).1,
{
    match state {
        ObservationState::Failed => ("Probe received an unexpected HTTP status.", "unexpected_http_status"),
        ObservationState::Degraded => (
            "Probe reported degraded conditions. Check local logs for details.",
            "probe_degraded",
        ),
        _ => (
            "Observation unavailable. Check observer path and collector logs; service failure is not confirmed.",
            "observation_unavailable",
        ),
    }
}

/// The id of a probe on the dashboard: its type and its configured name.
pub fn probe_id(target_type: &str, target_name: &str) -> (r: String)
    ensures
        r@ == target_type@ + ":"@ + target_name@,
{
    let mut out = owned(target_type);
    out.append(":");
    out.append(target_name);
    out
}

/// After how long an observation counts as stale: two collection intervals, at least
/// 30 seconds, in milliseconds (saturating).
pub open spec fn stale_after_spec(interval_seconds: u64) -> nat {
    let twice: nat = if 2 * interval_seconds > u64::MAX { u64::MAX as nat } else { (2 * interval_seconds) as nat };
    let at_least: nat = if twice < 30 { 30 } else { twice };
    if 1000 * at_least > u64::MAX { u64::MAX as nat } else { 1000 * at_least }
}

/// The stale limit is two collection intervals but never under 30 seconds, in milliseconds,
/// and the largest value a `u64` holds when that would not fit.
pub proof fn stale_limit_is_two_intervals_at_least_thirty_seconds(interval_seconds: u64)
    ensures
        stale_after_spec(interval_seconds) >= 30_000,
        stale_after_spec(interval_seconds) <= u64::MAX,
        2000 * interval_seconds <= u64::MAX ==> stale_after_spec(interval_seconds) == (if interval_seconds < 15 {
            30_000
        } else {
            2000 * interval_seconds
        }),
        2000 * interval_seconds > u64::MAX ==> stale_after_spec(interval_seconds) == u64::MAX,
{
}

pub fn stale_after_ms(interval_seconds: u64) -> (r: u64)
    ensures
        r == stale_after_spec(interval_seconds),
{
    let twice = if interval_seconds > u64::MAX / 2 { u64::MAX } else { interval_seconds * 2 };
    let at_least = if twice < 30 { 30 } else { twice };
    if at_least > u64::MAX / 1000 { u64::MAX } else { at_least * 1000 }
}

/// Age in whole milliseconds of an observation made at `observed_ns`, seen at `now_ns`
/// (both on the daemon's monotonic clock); none when there is no observation or the clock
/// reads earlier than it.
pub open spec fn age_spec(now_ns: u64, observed_ns: Option<u64>) -> Option<nat> {
    match observed_ns {
        Some(at) => if at <= now_ns { Some(((now_ns - at) / 1_000_000) as nat) } else { None },
        None => None,
    }
}

pub fn age_ms(now_ns: u64, observed_ns: Option<u64>) -> (r: Option<u64>)
    ensures
        r == (match age_spec(now_ns, observed_ns) {
            Some(a) => Some(a as u64),
            None => None::<u64>,
        }),
{
    match observed_ns {
        Some(at) => if at <= now_ns { Some((now_ns - at) / 1_000_000) } else { None },
        None => None,
    }
}

/// The state shown for an observation of a given age: older than the stale limit is stale,
/// an observation of unknown age is unknown, otherwise the observed state stands.
pub open spec fn shown_state_spec(age: Option<nat>, stale_after: u64, observed: ObservationState) -> ObservationState {
    match age {
        Some(a) => if a > stale_after { ObservationState::Stale } else { observed },
        None => ObservationState::Unknown,
    }
}

/// One probe's clock and observed state, as a status refresh reads them.
#[derive(PartialEq, Eq, Structural, Clone, Copy, Debug)]
pub struct Freshness {
    pub observed_ns: Option<u64>,
    pub observed_state: ObservationState,
}

/// One probe's age and shown state after a refresh.
#[derive(PartialEq, Eq, Structural, Clone, Copy, Debug)]
pub struct Shown {
    pub age_ms: Option<u64>,
    pub state: ObservationState,
}

pub open spec fn shown_spec(f: Freshness, now_ns: u64, stale_after: u64) -> Shown {
    let age = age_spec(now_ns, f.observed_ns);
    Shown {
        age_ms: match age {
            Some(a) => Some(a as u64),
            None => None,
        },
        state: shown_state_spec(age, stale_after, f.observed_state),
    }
}

/// How many shown states are healthy.
pub open spec fn healthy_count(s: Seq<Shown>) -> nat
    decreases s.len(),
{
    if s.len() == 0 {
        0
    } else {
        healthy_count(s.drop_last()) + if s.last().state == ObservationState::Healthy { 1nat } else { 0nat }
    }
}

/// Ages every probe's observation at `now_ns` and counts the probes shown healthy. Only the
/// collectors' clock readings enter: reading the status does not make an observation fresher.
pub fn refresh(probes: &Vec<Freshness>, now_ns: u64, stale_after: u64) -> (r: (Vec<Shown>, usize))
    ensures
        r.0@.len() == probes@.len(),
        forall|i: int| 0 <= i < probes@.len() ==> r.0@[i] == shown_spec(#[trigger] probes@[i], now_ns, stale_after),
        r.1 == healthy_count(r.0@),
{
    let mut out: Vec<Shown> = Vec::new();
    let mut healthy: usize = 0;
    let mut i: usize = 0;
    while i < probes.len()
        invariant
            i <= probes.len(),
            out@.len() == i,
            forall|j: int| 0 <= j < i ==> out@[j] == shown_spec(#[trigger] probes@[j], now_ns, stale_after),
            healthy == healthy_count(out@),
            healthy <= i,
        decreases probes.len() - i,
    {
        let f = probes[i];
        let age = age_ms(now_ns, f.observed_ns);
        let state = match age {
            Some(a) => if a > stale_after { ObservationState::Stale } else { f.observed_state },
            None => ObservationState::Unknown,
        };
        let ghost before = out@;
        out.push(Shown { age_ms: age, state });
        assert(out@.drop_last() =~= before);
        if state == ObservationState::Healthy {
            healthy = healthy + 1;
        }
        i = i + 1;
    }
    (out, healthy)
}

/// The advisory part of the published status.
#[derive(Clone, Debug)]
pub struct AdvisorStatus {
    pub phase: String,
    pub advisor_state: AdvisorState,
    pub system_health: String,
    pub action_required: Option<bool>,
    pub suggested_action: Option<String>,
    pub error_message: Option<String>,
    pub error_code: Option<String>,
}

impl AdvisorStatus {
    /// Before the first decision: starting, advisor unavailable, health unknown.
    pub fn starting() -> (r: AdvisorStatus)
        ensures
            r.phase@ == "starting"@,
            r.advisor_state == AdvisorState::Unavailable,
            r.system_health@ == "unknown"@,
            r.action_required is None,
            r.suggested_action is None,
            r.error_message is None,
            r.error_code is None,
    {
        AdvisorStatus {
            phase: owned("starting"),
            advisor_state: AdvisorState::Unavailable,
            system_health: owned("unknown"),
            action_required: None,
            suggested_action: None,
            error_message: None,
            error_code: None,
        }
    }

    /// While probes were observed and the advisor is being asked.
    pub fn evaluating() -> (r: AdvisorStatus)
        ensures
            r.phase@ == "evaluating"@,
            r.advisor_state == AdvisorState::Evaluating,
            r.system_health@ == "unknown"@,
            r.action_required is None,
            r.suggested_action is None,
            r.error_message is None,
            r.error_code is None,
    {
        AdvisorStatus {
            phase: owned("evaluating"),
            advisor_state: AdvisorState::Evaluating,
            system_health: owned("unknown"),
            action_required: None,
            suggested_action: None,
            error_message: None,
            error_code: None,
        }
    }

    /// Shows a decision: ready, with the decision's health and suggestion, and no error.
    pub fn set_decision(&mut self, system_health: String, action_required: bool, suggested_action: String)
        ensures
            final(self).phase@ == "ready"@,
            final(self).advisor_state == AdvisorState::Ready,
            final(self).system_health@ == system_health@,
            final(self).action_required == Some(action_required),
            final(self).suggested_action == Some(suggested_action),
            final(self).error_message is None,
            final(self).error_code is None,
    {
        self.phase = owned("ready");
        self.advisor_state = AdvisorState::Ready;
        self.system_health = system_health;
        self.action_required = Some(action_required);
        self.suggested_action = Some(suggested_action);
        self.error_message = None;
        self.error_code = None;
    }

    /// Shows that no advice is available: an invalid answer and an unreachable advisor are
    /// told apart; the previous decision is cleared.
    pub fn set_error(&mut self, invalid_response: bool)
        ensures
            final(self).phase@ == "evaluation_error"@,
            final(self).advisor_state == (if invalid_response { AdvisorState::InvalidResponse } else { AdvisorState::Unavailable }),
            final(self).system_health@ == "unknown"@,
            final(self).action_required is None,
            final(self).suggested_action is None,
            final(self).error_message matches Some(m) && m@ == (if invalid_response {
                "Jev returned an invalid decision; no advice is available."@
            } else {
                "Jev is unavailable; probe observations remain independent."@
            }),
            final(self).error_code matches Some(c) && c@ == (if invalid_response { "invalid_decision"@ } else { "jev_unavailable"@ }),
    {
        self.phase = owned("evaluation_error");
        self.advisor_state = if invalid_response { AdvisorState::InvalidResponse } else { AdvisorState::Unavailable };
        self.system_health = owned("unknown");
        self.action_required = None;
        self.suggested_action = None;
        self.error_message = Some(owned(if invalid_response {
            "Jev returned an invalid decision; no advice is available."
        } else {
            "Jev is unavailable; probe observations remain independent."
        }));
        self.error_code = Some(owned(if invalid_response { "invalid_decision" } else { "jev_unavailable" }));
    }
}

/// Clears the category of every probe filed under `id`.
pub fn clear_category(categories: &mut Vec<Option<String>>, id: &String)
    ensures
        final(categories)@.len() == old(categories)@.len(),
        forall|i: int| 0 <= i < old(categories)@.len() ==> #[trigger] opt_str_view(final(categories)@[i]) == (
            match opt_str_view(old(categories)@[i]) {
                Some(c) => if c == id@ { None } else { Some(c) },
                None => None,
            }),
{
    let mut i: usize = 0;
    while i < categories.len()
        invariant
            i <= categories.len(),
            categories@.len() == old(categories)@.len(),
            forall|j: int| i <= j < categories@.len() ==> categories@[j] == old(categories)@[j],
            forall|j: int| 0 <= j < i ==> #[trigger] opt_str_view(categories@[j]) == (
                match opt_str_view(old(categories)@[j]) {
                    Some(c) => if c == id@ { None } else { Some(c) },
                    None => None,
                }),
        decreases categories.len() - i,
    {
        let hit = match &categories[i] {
            Some(c) => same_text(c, id),
            None => false,
        };
        if hit {
            categories.set(i, None);
        }
        i = i + 1;
    }
}


// ---------------------------------------------------------------------------------------------
// Ordering probes by id
// ---------------------------------------------------------------------------------------------

/// `a` sorts before `b` (by code point, as `String`'s order compares their UTF-8 bytes).
pub open spec fn lex_lt(a: Seq<char>, b: Seq<char>) -> bool
    decreases a.len(),
{
    if a.len() == 0 {
        b.len() > 0
    } else if b.len() == 0 {
        false
    } else if a[0] < b[0] {
        true
    } else if a[0] == b[0] {
        lex_lt(a.drop_first(), b.drop_first())
    } else {
        false
    }
}

proof fn lemma_lex_irreflexive(a: Seq<char>)
    ensures
        !lex_lt(a, a),
    decreases a.len(),
{
    if a.len() > 0 {
        lemma_lex_irreflexive(a.drop_first());
    }
}

proof fn lemma_lex_total(a: Seq<char>, b: Seq<char>)
    ensures
        lex_lt(a, b) || lex_lt(b, a) || a == b,
    decreases a.len(),
{
    if a.len() > 0 && b.len() > 0 && a[0] == b[0] {
        lemma_lex_total(a.drop_first(), b.drop_first());
        if a.drop_first() == b.drop_first() {
            assert(a =~= seq![a[0]] + a.drop_first());
            assert(b =~= seq![b[0]] + b.drop_first());
        }
    } else if a.len() == 0 && b.len() == 0 {
        assert(a =~= b);
    }
}

proof fn lemma_lex_transitive(a: Seq<char>, b: Seq<char>, c: Seq<char>)
    requires
        lex_lt(a, b),
        lex_lt(b, c),
    ensures
        lex_lt(a, c),
    decreases a.len(),
{
    if a.len() > 0 && b.len() > 0 && c.len() > 0 && a[0] == b[0] && b[0] == c[0] {
        lemma_lex_transitive(a.drop_first(), b.drop_first(), c.drop_first());
    }
}

/// Whether `a` sorts before `b`.
pub fn lex_less(a: &str, b: &str) -> (r: bool)
    ensures
        r == lex_lt(a@, b@),
{
    let x = chars_of(a);
    let y = chars_of(b);
    let mut i: usize = 0;
    assert(x@.skip(0) =~= x@);
    assert(y@.skip(0) =~= y@);
    while i < x.len() && i < y.len() && x[i] == y[i]
        invariant
            i <= x.len(),
            i <= y.len(),
            lex_lt(x@, y@) == lex_lt(x@.skip(i as int), y@.skip(i as int)),
        decreases x.len() - i,
    {
        assert(x@.skip(i as int).drop_first() =~= x@.skip(i + 1));
        assert(y@.skip(i as int).drop_first() =~= y@.skip(i + 1));
        i = i + 1;
    }
    if i == x.len() {
        i < y.len()
    } else if i == y.len() {
        false
    } else {
        x[i] < y[i]
    }
}

/// Probe `a` (with id `ia`) comes before probe `b`: by id, and by position among equal ids,
/// as a stable sort by id leaves them.
pub open spec fn before(ids: Seq<Seq<char>>, a: usize, b: usize) -> bool {
    lex_lt(ids[a as int], ids[b as int]) || (ids[a as int] == ids[b as int] && a < b)
}

/// The ids of a list, read in the order of the positions `r`.
pub open spec fn ids_in_order(ids: Seq<Seq<char>>, r: Seq<usize>) -> Seq<Seq<char>> {
    r.map_values(|k: usize| ids[k as int])
}

/// `r` lists every position of `ids` once, ordered by id, equal ids keeping their order.
pub open spec fn orders_by_id(ids: Seq<Seq<char>>, r: Seq<usize>) -> bool {
    &&& r.len() == ids.len()
    &&& forall|k: int| 0 <= k < r.len() ==> r[k] < ids.len()
    &&& forall|j: usize| j < ids.len() ==> r.contains(j)
    &&& forall|a: int, b: int| 0 <= a < b < r.len() ==> before(ids, #[trigger] r[a], #[trigger] r[b])
    &&& ids_in_order(ids, r).to_multiset() == ids.to_multiset()
}

/// Positions `0..n` ordered by id, equal ids keeping their order: what a stable sort by id
/// does to a list.
pub fn order_by_id(ids: &Vec<String>) -> (r: Vec<usize>)
    ensures
        orders_by_id(ids_view(ids@), r@),
{
    let ghost v = ids_view(ids@);
    let mut out: Vec<usize> = Vec::new();
    let mut i: usize = 0;
    assert(ids_in_order(v, out@) =~= v.take(0));
    while i < ids.len()
        invariant
            i <= ids.len(),
            v == ids_view(ids@),
            out@.len() == i,
            forall|k: int| 0 <= k < out@.len() ==> out@[k] < i,
            forall|j: usize| j < i ==> out@.contains(j),
            forall|a: int, b: int| 0 <= a < b < out@.len() ==> before(v, #[trigger] out@[a], #[trigger] out@[b]),
            ids_in_order(v, out@).to_multiset() == v.take(i as int).to_multiset(),
        decreases ids.len() - i,
    {
        let mut pos: usize = 0;
        while pos < out.len() && !lex_less(ids[i].as_str(), ids[out[pos]].as_str())
            invariant
                pos <= out@.len(),
                i < ids.len(),
                v == ids_view(ids@),
                forall|k: int| 0 <= k < out@.len() ==> out@[k] < i,
                forall|k: int| 0 <= k < pos ==> !lex_lt(v[i as int], v[#[trigger] out@[k] as int]),
            decreases out.len() - pos,
        {
            pos = pos + 1;
        }
        let ghost before_ins = out@;
        out.insert(pos, i);
        proof {
            assert(out@ == before_ins.insert(pos as int, i));
            assert forall|a: int, b: int| 0 <= a < b < out@.len() implies before(v, #[trigger] out@[a], #[trigger] out@[b]) by {
                let x = out@[a];
                let y = out@[b];
                if a < pos && b == pos {
                    lemma_lex_total(v[x as int], v[i as int]);
                } else if a == pos && b > pos {
                    // the first element after the insertion point sorts after the new one
                    let f = before_ins[pos as int];
                    assert(lex_lt(v[i as int], v[f as int]));
                    if b == pos + 1 {
                    } else {
                        assert(before(v, f, y));
                        if lex_lt(v[f as int], v[y as int]) {
                            lemma_lex_transitive(v[i as int], v[f as int], v[y as int]);
                        }
                    }
                } else if a < pos && b > pos {
                    assert(x == before_ins[a]);
                    assert(y == before_ins[b - 1]);
                } else if b < pos {
                    assert(x == before_ins[a] && y == before_ins[b]);
                } else {
                    assert(x == before_ins[a - 1] && y == before_ins[b - 1]);
                }
            }
            assert forall|j: usize| j < i + 1 implies out@.contains(j) by {
                if j == i {
                    assert(out@[pos as int] == i);
                } else {
                    assert(before_ins.contains(j));
                    let k = choose|k: int| 0 <= k < before_ins.len() && before_ins[k] == j;
                    if k < pos {
                        assert(out@[k] == j);
                    } else {
                        assert(out@[k + 1] == j);
                    }
                }
            }
            lemma_insert_to_multiset(ids_in_order(v, before_ins), pos as int, v[i as int]);
            assert(ids_in_order(v, out@) =~= ids_in_order(v, before_ins).insert(pos as int, v[i as int]));
            assert(v.take(i + 1) =~= v.take(i as int).push(v[i as int]));
            vstd::seq_lib::to_multiset_build(v.take(i as int), v[i as int]);
        }
        i = i + 1;
    }
    assert(v.take(ids@.len() as int) =~= v);
    out
}

/// `a` sorts before `b`, or is `b`.
pub open spec fn lex_le(a: Seq<char>, b: Seq<char>) -> bool {
    lex_lt(a, b) || a == b
}

proof fn lemma_lex_le_total_ordering()
    ensures
        total_ordering(|a: Seq<char>, b: Seq<char>| lex_le(a, b)),
{
    let leq = |a: Seq<char>, b: Seq<char>| lex_le(a, b);
    assert forall|x: Seq<char>, y: Seq<char>| #[trigger] leq(x, y) && #[trigger] leq(y, x) implies x == y by {
        if x != y {
            lemma_lex_transitive(x, y, x);
            lemma_lex_irreflexive(x);
        }
    }
    assert forall|x: Seq<char>, y: Seq<char>, z: Seq<char>| #[trigger] leq(x, y) && #[trigger] leq(y, z) implies leq(x, z) by {
        if lex_lt(x, y) && lex_lt(y, z) {
            lemma_lex_transitive(x, y, z);
        }
    }
    assert forall|x: Seq<char>, y: Seq<char>| #[trigger] leq(x, y) || #[trigger] leq(y, x) by {
        lemma_lex_total(x, y);
    }
}

/// The order in which probes are listed depends on their ids alone: two lists that hold the
/// same ids, in whatever order they were configured, are listed with the same ids in the same
/// order.
pub proof fn listing_ignores_configured_order(a: Seq<Seq<char>>, ra: Seq<usize>, b: Seq<Seq<char>>, rb: Seq<usize>)
    requires
        a.to_multiset() == b.to_multiset(),
        orders_by_id(a, ra),
        orders_by_id(b, rb),
    ensures
        ids_in_order(a, ra) == ids_in_order(b, rb),
{
    let leq = |x: Seq<char>, y: Seq<char>| lex_le(x, y);
    lemma_lex_le_total_ordering();
    let la = ids_in_order(a, ra);
    let lb = ids_in_order(b, rb);
    assert(sorted_by(la, leq)) by {
        assert forall|i: int, j: int| 0 <= i < j < la.len() implies #[trigger] leq(la[i], la[j]) by {
            assert(before(a, ra[i], ra[j]));
        }
    }
    assert(sorted_by(lb, leq)) by {
        assert forall|i: int, j: int| 0 <= i < j < lb.len() implies #[trigger] leq(lb[i], lb[j]) by {
            assert(before(b, rb[i], rb[j]));
        }
    }
    vstd::seq_lib::lemma_sorted_unique(la, lb, leq);
}

proof fn lemma_insert_to_multiset<A>(s: Seq<A>, pos: int, x: A)
    requires
        0 <= pos <= s.len(),
    ensures
        s.insert(pos, x).to_multiset() == s.to_multiset().insert(x),
{
    broadcast use vstd::multiset::group_multiset_axioms;
    let t = s.insert(pos, x);
    assert(t.remove(pos) =~= s);
    vstd::seq_lib::to_multiset_remove(t, pos);
    assert(t.to_multiset().count(x) > 0) by {
        t.to_multiset_ensures();
        assert(t[pos] == x);
    }
    assert(t.to_multiset() =~= t.to_multiset().remove(x).insert(x));
}


/// Staleness is permanent: an observation shown stale at one moment is shown stale at every
/// later moment until a newer observation replaces it; reading the status cannot make it fresh.
pub proof fn staleness_is_permanent(f: Freshness, t1: u64, t2: u64, stale_after: u64)
    requires
        t1 <= t2,
        shown_spec(f, t1, stale_after).state == ObservationState::Stale,
        f.observed_state != ObservationState::Stale,
    ensures
        shown_spec(f, t2, stale_after).state == ObservationState::Stale,
        shown_spec(f, t2, stale_after).age_ms.unwrap() >= shown_spec(f, t1, stale_after).age_ms.unwrap(),
{
    let at = f.observed_ns.unwrap();
    assert((t1 - at) / 1_000_000 <= (t2 - at) / 1_000_000) by (nonlinear_arith)
        requires
            at <= t1 <= t2,
    ;
}



// ---------------------------------------------------------------------------------------------
// Public metric details
// ---------------------------------------------------------------------------------------------

/// At most this many resource rows of a probe's metrics are published.
pub const MAX_METRIC_ROWS: usize = 128;
/// At most this many service checks of a probe are published.
pub const MAX_SERVICES: usize = 64;
/// A published text (a metric string or a service name) keeps at most this many characters.
pub const MAX_METRIC_TEXT: usize = 128;

/// The metric fields the dashboard publishes; anything else a probe reports (raw output,
/// error bodies, URLs) stays private.
pub open spec fn public_metric_spec(k: Seq<char>) -> bool {
    ||| k == "vmid"@
    ||| k == "type"@
    ||| k == "node"@
    ||| k == "name"@
    ||| k == "status"@
    ||| k == "mem"@
    ||| k == "maxmem"@
    ||| k == "cpu"@
    ||| k == "maxcpu"@
    ||| k == "status_code"@
    ||| k == "expected_status"@
    ||| k == "connected"@
    ||| k == "exit_code"@
    ||| k == "truncated"@
    ||| k == "gpu_name"@
    ||| k == "gpu_count"@
    ||| k == "temperature_c"@
    ||| k == "memory_used_mb"@
    ||| k == "memory_total_mb"@
    ||| k == "utilization_pct"@
    ||| k == "swap_used_mb"@
    ||| k == "physical_memory_mb"@
    ||| k == "free_ram_mb"@
    ||| k == "wired_ram_mb"@
    ||| k == "active_ram_mb"@
    ||| k == "parse_error"@
}

/// Whether the metric field `key` is published (see `public_metric_spec`).
pub fn is_public_metric(key: &str) -> (r: bool)
    ensures
        r == public_metric_spec(key@),
{
    str_eq(key, "vmid")
        || str_eq(key, "type")
        || str_eq(key, "node")
        || str_eq(key, "name")
        || str_eq(key, "status")
        || str_eq(key, "mem")
        || str_eq(key, "maxmem")
        || str_eq(key, "cpu")
        || str_eq(key, "maxcpu")
        || str_eq(key, "status_code")
        || str_eq(key, "expected_status")
        || str_eq(key, "connected")
        || str_eq(key, "exit_code")
        || str_eq(key, "truncated")
        || str_eq(key, "gpu_name")
        || str_eq(key, "gpu_count")
        || str_eq(key, "temperature_c")
        || str_eq(key, "memory_used_mb")
        || str_eq(key, "memory_total_mb")
        || str_eq(key, "utilization_pct")
        || str_eq(key, "swap_used_mb")
        || str_eq(key, "physical_memory_mb")
        || str_eq(key, "free_ram_mb")
        || str_eq(key, "wired_ram_mb")
        || str_eq(key, "active_ram_mb")
        || str_eq(key, "parse_error")
}

/// The first `max` characters of `s` (all of it when shorter).
pub open spec fn first_chars(s: Seq<char>, max: nat) -> Seq<char> {
    if s.len() <= max { s } else { s.take(max as int) }
}

/// A metric text as published: its first `MAX_METRIC_TEXT` characters.
pub fn metric_text(s: &str) -> (r: String)
    ensures
        r@ == first_chars(s@, MAX_METRIC_TEXT as nat),
{
    let cs = chars_of(s);
    let mut out = String::new();
    let mut i: usize = 0;
    while i < cs.len() && i < MAX_METRIC_TEXT
        invariant
            i <= cs.len(),
            i <= MAX_METRIC_TEXT,
            cs@ == s@,
            out@ == cs@.take(i as int),
        decreases cs.len() - i,
    {
        push_char(&mut out, cs[i]);
        i = i + 1;
        assert(out@ =~= cs@.take(i as int));
    }
    if cs.len() <= MAX_METRIC_TEXT {
        assert(cs@.take(cs.len() as int) =~= cs@);
    }
    out
}

} // verus!
