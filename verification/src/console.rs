//! The management console: requests in, JSON or the page out.
//!
//! The cluster's administrator manages tenants and pools; a tenant's administrator
//! looks at use and quota, sets quotas within the tenant, and simulates writes to
//! see limits and quotas at work.

use vstd::prelude::*;

use crate::cluster;
use crate::cluster::{Cluster, ClusterView};
use crate::json;
use crate::json::{parse_flat, Fields, Json, JsonView};
use crate::placement::PoolState;
use crate::qos::QosSpec;
use crate::quota::{QuotaLimit, Usage};
use crate::room;
use crate::sorted_map;
use crate::tenant::{Placement, SpecView};
use crate::text;
use crate::types;
use crate::types::{Error, ErrorView, MediaClass, PoolId, TenantId};

verus! {

/// The page that the console shows.
pub const UI_HTML: &'static str = "\
<!doctype html>\n\
<html lang=\"en\">\n\
<head>\n\
<meta charset=\"utf-8\">\n\
<title>OmniStor Console</title>\n\
</head>\n\
<body>\n\
<h1>OmniStor</h1>\n\
<h2>Cluster</h2>\n\
<pre id=\"cluster\"></pre>\n\
<h2>Pools</h2>\n\
<pre id=\"pools\"></pre>\n\
<h2>Tenants</h2>\n\
<pre id=\"tenants\"></pre>\n\
<script>\n\
for (const name of [\"cluster\", \"pools\", \"tenants\"]) {\n\
fetch(\"/api/\" + name).then(r => r.json()).then(j => {\n\
document.getElementById(name).textContent = JSON.stringify(j, null, 2);\n\
});\n\
}\n\
</script>\n\
</body>\n\
</html>\n";

/// A response.
pub struct Response {
    pub status: u16,
    pub content_type: &'static str,
    pub body: String,
}

/// A response as a value.
pub struct ResponseView {
    pub status: u16,
    pub content_type: Seq<char>,
    pub body: Seq<char>,
}

impl View for Response {
    type V = ResponseView;

    open spec fn view(&self) -> ResponseView {
        ResponseView { status: self.status, content_type: self.content_type@, body: self.body@ }
    }
}

/// A JSON response.
pub open spec fn json_response(status: u16, j: JsonView) -> ResponseView {
    ResponseView { status, content_type: "application/json"@, body: json::rendered(j) }
}

/// A response that says what is wrong.
pub open spec fn failure(status: u16, message: Seq<char>) -> ResponseView {
    json_response(status, JsonView::Obj(seq![("error"@, JsonView::Str(message))]))
}

/// The status that stands for an error.
pub open spec fn error_status(e: ErrorView) -> u16 {
    match e {
        ErrorView::Throttled { .. } => 429,
        ErrorView::QuotaExceeded { .. } => 507,
        ErrorView::NoSpace { .. } => 507,
        ErrorView::UnknownTenant(_) => 404,
        ErrorView::Invalid(_) => 400,
        _ => 500,
    }
}

/// The response to an error.
pub open spec fn error_view(e: ErrorView) -> ResponseView {
    failure(error_status(e), types::message(e))
}

impl Response {
    fn json(status: u16, j: Json) -> (r: Response)
        ensures
            r@ == json_response(status, j@),
    {
        Response { status, content_type: "application/json", body: j.render() }
    }

    fn ok(j: Json) -> (r: Response)
        ensures
            r@ == json_response(200, j@),
    {
        Response::json(200, j)
    }

    fn err(status: u16, msg: &str) -> (r: Response)
        ensures
            r@ == failure(status, msg@),
    {
        let mut fields: Vec<(String, Json)> = Vec::new();
        json::push_field(&mut fields, "error", Json::str(msg));
        assert(json::field_views(fields@) =~= seq![("error"@, JsonView::Str(msg@))]);
        Response::json(status, json::object(fields))
    }

    fn html(body: &'static str) -> (r: Response)
        ensures
            r@ == (ResponseView { status: 200, content_type: "text/html; charset=utf-8"@, body: body@ }),
    {
        Response { status: 200, content_type: "text/html; charset=utf-8", body: text::copy(body) }
    }
}

fn error_response(e: &Error) -> (r: Response)
    ensures
        r@ == error_view(e@),
{
    let status: u16 = match e {
        Error::Throttled { .. } => 429,
        Error::QuotaExceeded { .. } => 507,
        Error::NoSpace { .. } => 507,
        Error::UnknownTenant(_) => 404,
        Error::Invalid(_) => 400,
        _ => 500,
    };
    Response::err(status, e.to_string().as_str())
}

/// The name of a media class in requests and responses.
pub open spec fn media_text(m: MediaClass) -> Seq<char> {
    match m {
        MediaClass::TlcNvme => "tlc-nvme"@,
        MediaClass::QlcNvme => "qlc-nvme"@,
        MediaClass::Hdd => "hdd"@,
        MediaClass::ExternalS3 => "external-s3"@,
    }
}

fn media_name(m: MediaClass) -> (s: &'static str)
    ensures
        s@ == media_text(m),
{
    match m {
        MediaClass::TlcNvme => "tlc-nvme",
        MediaClass::QlcNvme => "qlc-nvme",
        MediaClass::Hdd => "hdd",
        MediaClass::ExternalS3 => "external-s3",
    }
}

/// The media class that a name stands for.
pub open spec fn media_named(s: Seq<char>) -> Option<MediaClass> {
    if s == "tlc-nvme"@ || s == "tlc"@ {
        Some(MediaClass::TlcNvme)
    } else if s == "qlc-nvme"@ || s == "qlc"@ {
        Some(MediaClass::QlcNvme)
    } else if s == "hdd"@ {
        Some(MediaClass::Hdd)
    } else {
        None
    }
}

fn parse_media(s: &str) -> (r: Option<MediaClass>)
    ensures
        r == media_named(s@),
{
    if text::same_text(s, "tlc-nvme") || text::same_text(s, "tlc") {
        Some(MediaClass::TlcNvme)
    } else if text::same_text(s, "qlc-nvme") || text::same_text(s, "qlc") {
        Some(MediaClass::QlcNvme)
    } else if text::same_text(s, "hdd") {
        Some(MediaClass::Hdd)
    } else {
        None
    }
}

/// A number of up to 32 bits in a text.
pub open spec fn number32(s: Seq<char>) -> Option<u32> {
    match text::number(s, u32::MAX as nat) {
        Some(n) => Some(n as u32),
        None => None,
    }
}

/// A number of up to 64 bits in a text.
pub open spec fn number64(s: Seq<char>) -> Option<u64> {
    match text::number(s, u64::MAX as nat) {
        Some(n) => Some(n as u64),
        None => None,
    }
}

fn parse32(s: &str) -> (r: Option<u32>)
    ensures
        r == number32(s@),
{
    match text::parse_number(&text::chars_of(s), 0xffff_ffff) {
        Some(n) => Some(n as u32),
        None => None,
    }
}

fn parse64(s: &str) -> (r: Option<u64>)
    ensures
        r == number64(s@),
{
    text::parse_number(&text::chars_of(s), u64::MAX)
}

/// The fields of a request.
pub type FieldsView = Map<Seq<char>, Seq<char>>;

/// A field that holds a number of up to 32 bits.
pub open spec fn field32(f: FieldsView, name: Seq<char>) -> Option<u32> {
    if f.contains_key(name) {
        number32(f[name])
    } else {
        None
    }
}

/// A field that holds a number of up to 64 bits.
pub open spec fn field64(f: FieldsView, name: Seq<char>) -> Option<u64> {
    if f.contains_key(name) {
        number64(f[name])
    } else {
        None
    }
}

/// A field, or what stands for it if it is not there.
pub open spec fn field_or(f: FieldsView, name: Seq<char>, otherwise: Seq<char>) -> Seq<char> {
    if f.contains_key(name) {
        f[name]
    } else {
        otherwise
    }
}

/// A number, or what stands for it if there is none.
pub open spec fn or64(n: Option<u64>, otherwise: u64) -> u64 {
    match n {
        Some(n) => n,
        None => otherwise,
    }
}

/// A number, or what stands for it if there is none.
pub open spec fn or32(n: Option<u32>, otherwise: u32) -> u32 {
    match n {
        Some(n) => n,
        None => otherwise,
    }
}

fn get32(f: &Fields, name: &str) -> (r: Option<u32>)
    requires
        f.wf(),
    ensures
        r == field32(f@, name@),
{
    match f.get(name) {
        Some(v) => parse32(v.as_str()),
        None => None,
    }
}

fn get64(f: &Fields, name: &str) -> (r: Option<u64>)
    requires
        f.wf(),
    ensures
        r == field64(f@, name@),
{
    match f.get(name) {
        Some(v) => parse64(v.as_str()),
        None => None,
    }
}

fn get64_or(f: &Fields, name: &str, otherwise: u64) -> (r: u64)
    requires
        f.wf(),
    ensures
        r == or64(field64(f@, name@), otherwise),
{
    match get64(f, name) {
        Some(n) => n,
        None => otherwise,
    }
}

fn get_or(f: &Fields, name: &str, otherwise: &str) -> (r: String)
    requires
        f.wf(),
    ensures
        r@ == field_or(f@, name@, otherwise@),
{
    match f.get(name) {
        Some(v) => text::copy(v.as_str()),
        None => text::copy(otherwise),
    }
}

/// The parts of a path, between slashes, that are not empty, from place `i` on.
pub open spec fn parts_from(s: Seq<char>, i: int) -> Seq<Seq<char>>
    decreases s.len() - i,
{
    let start = text::past(s, i, |c: char| c == '/');
    let end = text::past(s, start, |c: char| c != '/');
    if !(0 <= i <= start < end <= s.len()) {
        Seq::empty()
    } else {
        seq![s.subrange(start, end)] + parts_from(s, end)
    }
}

/// What of a path comes before the query.
pub open spec fn path_part(s: Seq<char>) -> Seq<char> {
    s.take(text::past(s, 0, |c: char| c != '?'))
}

/// What of a path is the query.
pub open spec fn query_part(s: Seq<char>) -> Seq<char> {
    let mark = text::past(s, 0, |c: char| c != '?');
    if mark < s.len() {
        s.skip(mark + 1)
    } else {
        Seq::empty()
    }
}

/// The value of the first parameter `n` of a query, from place `i` on.
pub open spec fn parameter_n(q: Seq<char>, i: int) -> Option<Seq<char>>
    decreases q.len() - i,
{
    let end = text::past(q, i, |c: char| c != '&');
    if !(0 <= i <= end) {
        None
    } else if i + 2 <= end && q[i] == 'n' && q[i + 1] == '=' {
        Some(q.subrange(i + 2, end))
    } else if end < q.len() {
        parameter_n(q, end + 1)
    } else {
        None
    }
}

/// The views of a list of texts.
pub open spec fn char_views(parts: Seq<Vec<char>>) -> Seq<Seq<char>> {
    parts.map_values(|v: Vec<char>| v@)
}

/// Splits a path at slashes.
fn split_path(s: &Vec<char>) -> (r: Vec<Vec<char>>)
    ensures
        char_views(r@) == parts_from(s@, 0),
{
    let mut r: Vec<Vec<char>> = Vec::new();
    let mut i: usize = 0;
    let ghost slash = |c: char| c == '/';
    let ghost other = |c: char| c != '/';
    let ghost whole = parts_from(s@, 0);
    assert(char_views(r@) + whole =~= whole);
    loop
        invariant
            i <= s@.len(),
            slash == (|c: char| c == '/'),
            other == (|c: char| c != '/'),
            whole == parts_from(s@, 0),
            whole == char_views(r@) + parts_from(s@, i as int),
        decreases s.len() - i,
    {
        let mut start: usize = i;
        while start < s.len() && s[start] == '/'
            invariant
                i <= start <= s@.len(),
                slash == (|c: char| c == '/'),
                text::past(s@, i as int, slash) == text::past(s@, start as int, slash),
            decreases s.len() - start,
        {
            start += 1;
        }
        let mut end: usize = start;
        while end < s.len() && s[end] != '/'
            invariant
                start <= end <= s@.len(),
                other == (|c: char| c != '/'),
                text::past(s@, start as int, other) == text::past(s@, end as int, other),
            decreases s.len() - end,
        {
            end += 1;
        }
        if start >= end {
            assert(char_views(r@) + Seq::<Seq<char>>::empty() =~= char_views(r@));
            return r;
        }
        let ghost before = r@;
        let part = text::part(s, start, end);
        let ghost p = part@;
        r.push(part);
        proof {
            assert(char_views(r@) =~= char_views(before).push(p));
            assert(char_views(before) + (seq![p] + parts_from(s@, end as int)) =~= char_views(r@) + parts_from(
                s@,
                end as int,
            ));
        }
        i = end;
    }
}

/// Finds the first parameter `n` of a query.
fn find_n(q: &Vec<char>) -> (r: Option<Vec<char>>)
    ensures
        match r {
            Some(v) => parameter_n(q@, 0) == Some(v@),
            None => parameter_n(q@, 0) is None,
        },
{
    let mut i: usize = 0;
    let ghost other = |c: char| c != '&';
    loop
        invariant
            i <= q@.len(),
            other == (|c: char| c != '&'),
            parameter_n(q@, 0) == parameter_n(q@, i as int),
        decreases q.len() - i,
    {
        let mut end: usize = i;
        while end < q.len() && q[end] != '&'
            invariant
                i <= end <= q@.len(),
                other == (|c: char| c != '&'),
                text::past(q@, i as int, other) == text::past(q@, end as int, other),
            decreases q.len() - end,
        {
            end += 1;
        }
        if end - i >= 2 && q[i] == 'n' && q[i + 1] == '=' {
            return Some(text::part(q, i + 2, end));
        }
        if end >= q.len() {
            return None;
        }
        i = end + 1;
    }
}

/// What a request asks for.
pub enum Route {
    Page,
    Summary,
    Pools,
    CreatePool,
    Tenants,
    CreateTenant,
    Tenant(Seq<char>),
    DeleteTenant(Seq<char>),
    PutObjects(Seq<char>),
    SetQuota(Seq<char>),
    Tick,
    Unknown,
}

/// What a request asks for, by its method and the parts of its path.
pub open spec fn route(method: Seq<char>, parts: Seq<Seq<char>>) -> Route {
    let get = method == "GET"@;
    let post = method == "POST"@;
    let n = parts.len();
    let api = n >= 2 && parts[0] == "api"@;
    let tenants = api && parts[1] == "tenants"@;
    if get && (n == 0 || (n == 1 && parts[0] == "index.html"@)) {
        Route::Page
    } else if get && n == 2 && api && parts[1] == "cluster"@ {
        Route::Summary
    } else if get && n == 2 && api && parts[1] == "pools"@ {
        Route::Pools
    } else if post && n == 2 && api && parts[1] == "pools"@ {
        Route::CreatePool
    } else if get && n == 2 && tenants {
        Route::Tenants
    } else if post && n == 2 && tenants {
        Route::CreateTenant
    } else if get && n == 3 && tenants {
        Route::Tenant(parts[2])
    } else if method == "DELETE"@ && n == 3 && tenants {
        Route::DeleteTenant(parts[2])
    } else if post && n == 4 && tenants && parts[3] == "objects"@ {
        Route::PutObjects(parts[2])
    } else if post && n == 4 && tenants && parts[3] == "quota"@ {
        Route::SetQuota(parts[2])
    } else if post && n == 2 && api && parts[1] == "tick"@ {
        Route::Tick
    } else {
        Route::Unknown
    }
}

/// The sum of the capacities of the first `n` pools listed.
pub open spec fn capacities(pools: Map<PoolId, PoolState>, ids: Seq<PoolId>, n: nat) -> nat
    decreases n,
{
    if n == 0 {
        0
    } else {
        capacities(pools, ids, (n - 1) as nat) + pools[ids[n - 1]].capacity as nat
    }
}

/// The sum of what is in use of the first `n` pools listed.
pub open spec fn uses(pools: Map<PoolId, PoolState>, ids: Seq<PoolId>, n: nat) -> nat
    decreases n,
{
    if n == 0 {
        0
    } else {
        uses(pools, ids, (n - 1) as nat) + pools[ids[n - 1]].used as nat
    }
}

/// The pools of a cluster by number.
pub open spec fn pool_ids(c: ClusterView) -> Seq<PoolId> {
    sorted_map::in_order::<PoolId>(c.placement.pools.dom())
}

/// A count in 32 bits.
pub open spec fn count32(n: nat) -> JsonView {
    JsonView::Num((n % 0x1_0000_0000) as u64)
}

/// A cluster in figures.
pub open spec fn summary_json(c: ClusterView) -> JsonView {
    let ids = pool_ids(c);
    JsonView::Obj(
        seq![
            ("tenants"@, count32(c.tenants.tenants.dom().len())),
            ("pools"@, count32(c.placement.pools.dom().len())),
            ("capacity_extents"@, JsonView::Num(capacities(c.placement.pools, ids, ids.len()) as u64)),
            ("used_extents"@, JsonView::Num(uses(c.placement.pools, ids, ids.len()) as u64)),
            ("tlc_free_extents"@, JsonView::Num(c.extents.free)),
            ("tlc_metadata_used"@, JsonView::Num(c.extents.meta_used)),
            ("tlc_data_used"@, JsonView::Num(c.extents.data_used)),
            ("active_buckets"@, count32(c.running.dom().len())),
        ],
    )
}

/// Whether the sums of a summary fit in 64 bits.
pub open spec fn can_sum_up(c: ClusterView) -> bool {
    let ids = pool_ids(c);
    &&& capacities(c.placement.pools, ids, ids.len()) <= u64::MAX
    &&& uses(c.placement.pools, ids, ids.len()) <= u64::MAX
}

pub open spec fn pool_json(p: PoolState) -> JsonView {
    JsonView::Obj(
        seq![
            ("id"@, JsonView::Num(p.id.0 as u64)),
            ("media"@, JsonView::Str(media_text(p.media))),
            ("capacity"@, JsonView::Num(p.capacity)),
            ("used"@, JsonView::Num(p.used)),
            ("load_headroom_permille"@, JsonView::Num(p.load_headroom_permille as u64)),
            (
                "dedicated_to"@,
                match p.dedicated_to {
                    Some(t) => JsonView::Num(t.0 as u64),
                    None => JsonView::Null,
                },
            ),
        ],
    )
}

pub open spec fn pool_list(c: ClusterView) -> ResponseView {
    json_response(
        200,
        JsonView::Arr(pool_ids(c).map_values(|id: PoolId| pool_json(c.placement.pools[id]))),
    )
}

pub open spec fn create_pool(c: ClusterView, body: Seq<char>) -> (ClusterView, ResponseView) {
    let f = json::flat_fields(body);
    let media = if f.contains_key("media"@) { media_named(f["media"@]) } else { None };
    match (field32(f, "id"@), media, field64(f, "capacity"@)) {
        (Some(id), Some(media), Some(capacity)) => (
            c.add_pool(
                PoolState {
                    id: PoolId(id),
                    media,
                    capacity,
                    used: 0,
                    load_headroom_permille: 1000,
                    dedicated_to: match field32(f, "dedicated_to"@) {
                        Some(t) => Some(TenantId(t)),
                        None => None,
                    },
                },
            ),
            json_response(200, JsonView::Obj(seq![("id"@, JsonView::Num(id as u64))])),
        ),
        _ => (c, failure(400, "need id, media(tlc|qlc|hdd), capacity"@)),
    }
}

/// What a tenant uses.
pub open spec fn usage_of(c: ClusterView, t: TenantId) -> Usage {
    if c.quotas.tenants.contains_key(t) {
        c.quotas.tenants[t].usage
    } else {
        Usage { bytes: 0, objects: 0 }
    }
}

pub open spec fn placement_text(p: Placement) -> Seq<char> {
    match p {
        Placement::Shared => "shared"@,
        Placement::DedicatedPool(p) => "dedicated:"@ + text::decimal(p.0 as nat),
    }
}

pub open spec fn tenant_json(c: ClusterView, t: TenantId, spec: SpecView) -> JsonView {
    JsonView::Obj(
        seq![
            ("id"@, JsonView::Num(t.0 as u64)),
            ("name"@, JsonView::Str(spec.name)),
            ("placement"@, JsonView::Str(placement_text(spec.placement))),
            ("used_bytes"@, JsonView::Num(usage_of(c, t).bytes)),
            ("objects"@, JsonView::Num(usage_of(c, t).objects)),
        ],
    )
}

pub open spec fn tenant_list(c: ClusterView) -> ResponseView {
    json_response(
        200,
        JsonView::Arr(c.tenants.list().map_values(|e: (TenantId, SpecView)| tenant_json(c, e.0, e.1))),
    )
}

/// The limits that a request asks for.
pub open spec fn asked_quota(f: FieldsView) -> QuotaLimit {
    QuotaLimit { capacity_bytes: field64(f, "capacity_bytes"@), object_count: field64(f, "object_count"@) }
}

/// The rates that a request asks for.
pub open spec fn asked_qos(f: FieldsView) -> QosSpec {
    QosSpec {
        metadata_iops: or64(field64(f, "metadata_iops"@), 50_000),
        data_iops: or64(field64(f, "data_iops"@), 100_000),
        data_bw_bytes: or64(field64(f, "data_bw_bytes"@), 10_737_418_240),
        burst_multiple: 2,
    }
}

/// The placement that a request asks for.
pub open spec fn asked_placement(f: FieldsView) -> Placement {
    match field32(f, "dedicated_pool"@) {
        Some(p) => Placement::DedicatedPool(PoolId(p)),
        None => Placement::Shared,
    }
}

/// The name that a request gives, if it gives one.
pub open spec fn asked(f: FieldsView, name: Seq<char>) -> Option<Seq<char>> {
    if f.contains_key(name) && f[name].len() > 0 {
        Some(f[name])
    } else {
        None
    }
}

pub open spec fn create_tenant(c: ClusterView, body: Seq<char>) -> (ClusterView, ResponseView) {
    let f = json::flat_fields(body);
    match asked(f, "name"@) {
        None => (c, failure(400, "need name"@)),
        Some(name) => {
            let (w, r) = c.create_tenant(name, asked_quota(f), asked_qos(f), asked_placement(f));
            (
                w,
                match r {
                    Ok(id) => json_response(
                        201,
                        JsonView::Obj(
                            seq![("id"@, JsonView::Num(id.0 as u64)), ("name"@, JsonView::Str(name))],
                        ),
                    ),
                    Err(e) => error_view(e),
                },
            )
        },
    }
}

/// Whether there is a number left for a tenant, if one is to be created.
pub open spec fn can_create_tenant(c: ClusterView, body: Seq<char>) -> bool {
    asked(json::flat_fields(body), "name"@) matches Some(name) ==> (!c.tenants.name_taken(name)
        ==> c.tenants.next_id < u32::MAX)
}

/// The response to a request that names no tenant.
pub open spec fn bad_tenant() -> ResponseView {
    failure(400, "bad tenant id"@)
}

/// A tenant in detail.
pub open spec fn detail_json(c: ClusterView, t: TenantId, spec: SpecView) -> JsonView {
    JsonView::Obj(
        seq![
            ("id"@, JsonView::Num(t.0 as u64)),
            ("name"@, JsonView::Str(spec.name)),
            ("used_bytes"@, JsonView::Num(usage_of(c, t).bytes)),
            ("objects"@, JsonView::Num(usage_of(c, t).objects)),
            (
                "key"@,
                match c.tenants.key(t) {
                    Err(_) => JsonView::Null,
                    Ok(k) => JsonView::Obj(
                        seq![
                            ("key_id"@, JsonView::Str(k.key_id)),
                            ("generation"@, JsonView::Num(k.generation as u64)),
                        ],
                    ),
                },
            ),
        ],
    )
}

pub open spec fn tenant_detail(c: ClusterView, id: Seq<char>) -> ResponseView {
    match number32(id) {
        None => bad_tenant(),
        Some(n) => match c.tenants.get(TenantId(n)) {
            Err(e) => error_view(e),
            Ok(spec) => json_response(200, detail_json(c, TenantId(n), spec)),
        },
    }
}

pub open spec fn delete_tenant(c: ClusterView, id: Seq<char>) -> (ClusterView, ResponseView) {
    match number32(id) {
        None => (c, bad_tenant()),
        Some(n) => {
            let (w, r) = c.delete_tenant(TenantId(n));
            (
                w,
                match r {
                    Ok(_) => json_response(
                        200,
                        JsonView::Obj(seq![("deleted"@, JsonView::Num(n as u64))]),
                    ),
                    Err(e) => error_view(e),
                },
            )
        },
    }
}

pub open spec fn set_scope_quota(c: ClusterView, id: Seq<char>, body: Seq<char>) -> (ClusterView, ResponseView) {
    let f = json::flat_fields(body);
    match (number32(id), asked(f, "scope"@)) {
        (None, _) => (c, bad_tenant()),
        (Some(_), None) => (c, failure(400, "need scope"@)),
        (Some(n), Some(scope)) => {
            let (quotas, r) = c.quotas.set_scope_limit(TenantId(n), scope, asked_quota(f));
            (
                ClusterView { quotas, ..c },
                match r {
                    Ok(_) => json_response(200, JsonView::Obj(seq![("scope"@, JsonView::Str(scope))])),
                    Err(e) => error_view(e),
                },
            )
        },
    }
}

/// How far a request lets time pass.
pub open spec fn ticks_asked(query: Seq<char>) -> u32 {
    let n = match parameter_n(query, 0) {
        Some(v) => or32(number32(v), 1),
        None => 1,
    };
    if n > 10_000 { 10_000 } else { n }
}

/// The cluster after `n` ticks.
pub open spec fn after_ticks(c: ClusterView, n: nat) -> ClusterView
    decreases n,
{
    if n == 0 {
        c
    } else {
        after_ticks(c, (n - 1) as nat).tick()
    }
}

/// Whether time cannot pass any further after `k` ticks of `n`.
pub open spec fn ticks_break_at(c: ClusterView, n: u32, k: nat) -> bool {
    &&& k < n
    &&& !after_ticks(c, k).can_tick()
    &&& forall|j: nat| j < k ==> (#[trigger] after_ticks(c, j)).can_tick()
}

pub open spec fn ticked(c: ClusterView, query: Seq<char>) -> (ClusterView, ResponseView) {
    let n = ticks_asked(query);
    (
        after_ticks(c, n as nat),
        json_response(200, JsonView::Obj(seq![("ticked"@, JsonView::Num(n as u64))])),
    )
}

/// The console: a cluster and the requests to it.
pub struct Console {
    cluster: Cluster,
}

impl View for Console {
    type V = ClusterView;

    closed spec fn view(&self) -> ClusterView {
        self.cluster@
    }
}

impl Console {
    pub closed spec fn wf(&self) -> bool {
        self.cluster.wf()
    }

    pub fn new(cluster: Cluster) -> (r: Self)
        requires
            cluster.wf(),
        ensures
            r.wf(),
            r@ == cluster@,
    {
        Console { cluster }
    }

    fn cluster_summary(&self) -> (r: Response)
        requires
            self.wf(),
            can_sum_up(self@),
        ensures
            r@ == json_response(200, summary_json(self@)),
    {
        proof {
            lemma_pool_ids(self@);
        }
        let ghost c = self@;
        let ghost ids = pool_ids(c);
        let pools = self.cluster.placement.pools();
        let mut cap: u64 = 0;
        let mut used: u64 = 0;
        let mut i: usize = 0;
        while i < pools.len()
            invariant
                i <= pools@.len(),
                c == self@,
                ids == pool_ids(c),
                pools@.len() == ids.len(),
                can_sum_up(c),
                forall|k: int| 0 <= k < pools@.len() ==> *(#[trigger] pools@[k]) == c.placement.pools[ids[k]],
                cap == capacities(c.placement.pools, ids, i as nat),
                used == uses(c.placement.pools, ids, i as nat),
            decreases pools.len() - i,
        {
            proof {
                lemma_sums_grow(c.placement.pools, ids, (i + 1) as nat, ids.len());
            }
            let p: &PoolState = pools[i];
            assert(p == c.placement.pools[ids[i as int]]);
            cap = cap + p.capacity;
            used = used + p.used;
            i += 1;
        }
        let tenants: u64 = (self.cluster.tenants.list().len() as u64) % 0x1_0000_0000;
        let active: u64 = (self.cluster.active_buckets() as u64) % 0x1_0000_0000;
        let mut fields: Vec<(String, Json)> = Vec::new();
        json::push_field(&mut fields, "tenants", Json::num(tenants));
        json::push_field(&mut fields, "pools", Json::num((pools.len() as u64) % 0x1_0000_0000));
        json::push_field(&mut fields, "capacity_extents", Json::num(cap));
        json::push_field(&mut fields, "used_extents", Json::num(used));
        json::push_field(&mut fields, "tlc_free_extents", Json::num(self.cluster.tlc_extents.free_extents()));
        json::push_field(&mut fields, "tlc_metadata_used", Json::num(self.cluster.tlc_extents.metadata_used()));
        json::push_field(&mut fields, "tlc_data_used", Json::num(self.cluster.tlc_extents.data_used()));
        json::push_field(&mut fields, "active_buckets", Json::num(active));
        assert(json::field_views(fields@) =~= summary_json(c)->Obj_0);
        Response::ok(json::object(fields))
    }

    fn list_pools(&self) -> (r: Response)
        requires
            self.wf(),
        ensures
            r@ == pool_list(self@),
    {
        proof {
            lemma_pool_ids(self@);
        }
        let ghost c = self@;
        let ghost ids = pool_ids(c);
        let pools = self.cluster.placement.pools();
        let mut items: Vec<Json> = Vec::new();
        let mut i: usize = 0;
        while i < pools.len()
            invariant
                i <= pools@.len(),
                c == self@,
                ids == pool_ids(c),
                pools@.len() == ids.len(),
                forall|k: int| 0 <= k < pools@.len() ==> *(#[trigger] pools@[k]) == c.placement.pools[ids[k]],
                items@.len() == i,
                forall|k: int| 0 <= k < i ==> (#[trigger] items@[k])@ == pool_json(c.placement.pools[ids[k]]),
            decreases pools.len() - i,
        {
            assert(pools@[i as int] == c.placement.pools[ids[i as int]]);
            items.push(pool_value(pools[i]));
            i += 1;
        }
        assert(json::item_views(items@) =~= ids.map_values(|id: PoolId| pool_json(c.placement.pools[id])));
        Response::ok(json::array(items))
    }

    fn create_pool(&mut self, body: &str) -> (r: Response)
        requires
            old(self).wf(),
        ensures
            final(self).wf(),
            (final(self)@, r@) == create_pool(old(self)@, body@),
    {
        let f = parse_flat(body);
        let media = match f.get("media") {
            Some(v) => parse_media(v.as_str()),
            None => None,
        };
        let id = get32(&f, "id");
        let capacity = get64(&f, "capacity");
        let dedicated_to = match get32(&f, "dedicated_to") {
            Some(t) => Some(TenantId(t)),
            None => None,
        };
        match (id, media, capacity) {
            (Some(id), Some(media), Some(capacity)) => {
                self.cluster.add_pool(
                    PoolState {
                        id: PoolId(id),
                        media,
                        capacity,
                        used: 0,
                        load_headroom_permille: 1000,
                        dedicated_to,
                    },
                );
                let mut fields: Vec<(String, Json)> = Vec::new();
                json::push_field(&mut fields, "id", Json::num(id as u64));
                assert(json::field_views(fields@) =~= seq![("id"@, JsonView::Num(id as u64))]);
                Response::ok(json::object(fields))
            },
            _ => Response::err(400, "need id, media(tlc|qlc|hdd), capacity"),
        }
    }

    /// What a tenant uses.
    fn usage(&self, t: TenantId) -> (u: Usage)
        requires
            self.wf(),
        ensures
            u == usage_of(self@, t),
    {
        match self.cluster.quotas.tenant_usage(t) {
            Some(u) => u,
            None => Usage { bytes: 0, objects: 0 },
        }
    }

    fn list_tenants(&self) -> (r: Response)
        requires
            self.wf(),
        ensures
            r@ == tenant_list(self@),
    {
        let ghost c = self@;
        let tenants = self.cluster.tenants.list();
        let ghost list = c.tenants.list();
        let ghost plain = |e: (TenantId, &crate::tenant::TenantSpec)| (e.0, e.1@);
        let mut items: Vec<Json> = Vec::new();
        let mut i: usize = 0;
        assert(tenants@.map_values(plain) == list);
        while i < tenants.len()
            invariant
                self.wf(),
                i <= tenants@.len(),
                c == self@,
                plain == (|e: (TenantId, &crate::tenant::TenantSpec)| (e.0, e.1@)),
                tenants@.map_values(plain) == list,
                items@.len() == i,
                forall|k: int| 0 <= k < i ==> (#[trigger] items@[k])@ == tenant_json(c, list[k].0, list[k].1),
            decreases tenants.len() - i,
        {
            let (id, spec): (TenantId, &crate::tenant::TenantSpec) = tenants[i];
            assert(list[i as int] == plain(tenants@[i as int]));
            let usage = self.usage(id);
            let placement = match spec.placement {
                Placement::Shared => text::copy("shared"),
                Placement::DedicatedPool(p) => text::numbered("dedicated:", p.0 as u64),
            };
            let mut fields: Vec<(String, Json)> = Vec::new();
            json::push_field(&mut fields, "id", Json::num(id.0 as u64));
            json::push_field(&mut fields, "name", Json::str(spec.name.as_str()));
            json::push_field(&mut fields, "placement", Json::str(placement.as_str()));
            json::push_field(&mut fields, "used_bytes", Json::num(usage.bytes));
            json::push_field(&mut fields, "objects", Json::num(usage.objects));
            assert(json::field_views(fields@) =~= tenant_json(c, id, spec@)->Obj_0);
            items.push(json::object(fields));
            i += 1;
        }
        assert(json::item_views(items@) =~= list.map_values(
            |e: (TenantId, SpecView)| tenant_json(c, e.0, e.1),
        ));
        Response::ok(json::array(items))
    }

    fn create_tenant(&mut self, body: &str) -> (r: Response)
        requires
            old(self).wf(),
            can_create_tenant(old(self)@, body@),
        ensures
            final(self).wf(),
            (final(self)@, r@) == create_tenant(old(self)@, body@),
    {
        let f = parse_flat(body);
        let name = match non_empty(&f, "name") {
            Some(n) => n,
            None => {
                return Response::err(400, "need name");
            },
        };
        let quota = quota_asked(&f);
        let qos = QosSpec {
            metadata_iops: get64_or(&f, "metadata_iops", 50_000),
            data_iops: get64_or(&f, "data_iops", 100_000),
            data_bw_bytes: get64_or(&f, "data_bw_bytes", 10_737_418_240),
            burst_multiple: 2,
        };
        let placement = match get32(&f, "dedicated_pool") {
            Some(p) => Placement::DedicatedPool(PoolId(p)),
            None => Placement::Shared,
        };
        match self.cluster.create_tenant(name.as_str(), quota, qos, placement) {
            Ok(id) => {
                let mut fields: Vec<(String, Json)> = Vec::new();
                json::push_field(&mut fields, "id", Json::num(id.0 as u64));
                json::push_field(&mut fields, "name", Json::str(name.as_str()));
                assert(json::field_views(fields@) =~= seq![
                    ("id"@, JsonView::Num(id.0 as u64)),
                    ("name"@, JsonView::Str(name@)),
                ]);
                Response::json(201, json::object(fields))
            },
            Err(e) => error_response(&e),
        }
    }

    fn tenant_detail(&self, id: &str) -> (r: Response)
        requires
            self.wf(),
        ensures
            r@ == tenant_detail(self@, id@),
    {
        let n: u32 = match parse32(id) {
            Some(n) => n,
            None => {
                return Response::err(400, "bad tenant id");
            },
        };
        let tid = TenantId(n);
        let spec = match self.cluster.tenants.get(tid) {
            Ok(s) => s,
            Err(e) => {
                return error_response(&e);
            },
        };
        let usage = self.usage(tid);
        let key = match self.cluster.tenants.key(tid) {
            Ok(k) => {
                let mut fields: Vec<(String, Json)> = Vec::new();
                json::push_field(&mut fields, "key_id", Json::str(k.key_id.as_str()));
                json::push_field(&mut fields, "generation", Json::num(k.generation as u64));
                assert(json::field_views(fields@) =~= seq![
                    ("key_id"@, JsonView::Str(k@.key_id)),
                    ("generation"@, JsonView::Num(k@.generation as u64)),
                ]);
                json::object(fields)
            },
            Err(_) => json::null(),
        };
        let mut fields: Vec<(String, Json)> = Vec::new();
        json::push_field(&mut fields, "id", Json::num(n as u64));
        json::push_field(&mut fields, "name", Json::str(spec.name.as_str()));
        json::push_field(&mut fields, "used_bytes", Json::num(usage.bytes));
        json::push_field(&mut fields, "objects", Json::num(usage.objects));
        json::push_field(&mut fields, "key", key);
        assert(json::field_views(fields@) =~= detail_json(self@, tid, spec@)->Obj_0);
        Response::ok(json::object(fields))
    }

    fn delete_tenant(&mut self, id: &str) -> (r: Response)
        requires
            old(self).wf(),
        ensures
            final(self).wf(),
            (final(self)@, r@) == delete_tenant(old(self)@, id@),
    {
        let n: u32 = match parse32(id) {
            Some(n) => n,
            None => {
                return Response::err(400, "bad tenant id");
            },
        };
        match self.cluster.delete_tenant(TenantId(n)) {
            Ok(()) => {
                let mut fields: Vec<(String, Json)> = Vec::new();
                json::push_field(&mut fields, "deleted", Json::num(n as u64));
                assert(json::field_views(fields@) =~= seq![("deleted"@, JsonView::Num(n as u64))]);
                Response::ok(json::object(fields))
            },
            Err(e) => error_response(&e),
        }
    }

    /// Sets the quota of a scope within a tenant.
    fn set_scope_quota(&mut self, id: &str, body: &str) -> (r: Response)
        requires
            old(self).wf(),
        ensures
            final(self).wf(),
            (final(self)@, r@) == set_scope_quota(old(self)@, id@, body@),
    {
        let n: u32 = match parse32(id) {
            Some(n) => n,
            None => {
                return Response::err(400, "bad tenant id");
            },
        };
        let f = parse_flat(body);
        let scope = match non_empty(&f, "scope") {
            Some(s) => s,
            None => {
                return Response::err(400, "need scope");
            },
        };
        let limit = quota_asked(&f);
        let ghost start = self@;
        let r = self.cluster.quotas.set_scope_limit(TenantId(n), scope.as_str(), limit);
        proof {
            start.lemma_in_order_unless(self@);
        }
        match r {
            Ok(()) => {
                let mut fields: Vec<(String, Json)> = Vec::new();
                json::push_field(&mut fields, "scope", Json::str(scope.as_str()));
                assert(json::field_views(fields@) =~= seq![("scope"@, JsonView::Str(scope@))]);
                Response::ok(json::object(fields))
            },
            Err(e) => error_response(&e),
        }
    }

    /// Lets time pass: `/api/tick?n=5`.
    fn tick(&mut self, query: &Vec<char>) -> (r: Option<Response>)
        requires
            old(self).wf(),
        ensures
            final(self).wf(),
            match r {
                Some(response) => {
                    &&& forall|k: nat| k < ticks_asked(query@) ==> (#[trigger] after_ticks(old(self)@, k)).can_tick()
                    &&& (final(self)@, response@) == ticked(old(self)@, query@)
                },
                None => exists|k: nat| #[trigger]
                    ticks_break_at(old(self)@, ticks_asked(query@), k) && final(self)@ == after_ticks(
                        old(self)@,
                        k,
                    ),
            },
    {
        let ghost start = self@;
        let n: u32 = ticks_in(query);
        let mut i: u32 = 0;
        while i < n
            invariant
                i <= n,
                n == ticks_asked(query@),
                start == old(self)@,
                self.wf(),
                forall|k: nat| k < i ==> (#[trigger] after_ticks(start, k)).can_tick(),
                self@ == after_ticks(start, i as nat),
            decreases n - i,
        {
            if !self.cluster.tick_fits() {
                assert(ticks_break_at(start, n, i as nat));
                return None;
            }
            self.cluster.tick();
            i += 1;
        }
        let mut fields: Vec<(String, Json)> = Vec::new();
        json::push_field(&mut fields, "ticked", Json::num(n as u64));
        assert(json::field_views(fields@) =~= seq![("ticked"@, JsonView::Num(n as u64))]);
        Some(Response::ok(json::object(fields)))
    }
}

/// How far a request lets time pass.
fn ticks_in(query: &Vec<char>) -> (n: u32)
    ensures
        n == ticks_asked(query@),
{
    let n: u32 = match find_n(query) {
        Some(v) => match text::parse_number(&v, 0xffff_ffff) {
            Some(n) => n as u32,
            None => 1,
        },
        None => 1,
    };
    if n > 10_000 {
        10_000
    } else {
        n
    }
}

/// A pool as JSON.
fn pool_value(p: &PoolState) -> (j: Json)
    ensures
        j@ == pool_json(*p),
{
    let owner = match p.dedicated_to {
        Some(t) => Json::num(t.0 as u64),
        None => json::null(),
    };
    let mut fields: Vec<(String, Json)> = Vec::new();
    json::push_field(&mut fields, "id", Json::num(p.id.0 as u64));
    json::push_field(&mut fields, "media", Json::str(media_name(p.media)));
    json::push_field(&mut fields, "capacity", Json::num(p.capacity));
    json::push_field(&mut fields, "used", Json::num(p.used));
    json::push_field(&mut fields, "load_headroom_permille", Json::num(p.load_headroom_permille as u64));
    json::push_field(&mut fields, "dedicated_to", owner);
    assert(json::field_views(fields@) =~= pool_json(*p)->Obj_0);
    json::object(fields)
}

fn quota_asked(f: &Fields) -> (r: QuotaLimit)
    requires
        f.wf(),
    ensures
        r == asked_quota(f@),
{
    QuotaLimit { capacity_bytes: get64(f, "capacity_bytes"), object_count: get64(f, "object_count") }
}

/// A field that is there and not empty.
fn non_empty(f: &Fields, name: &str) -> (r: Option<String>)
    requires
        f.wf(),
    ensures
        match r {
            Some(v) => asked(f@, name@) == Some(v@),
            None => asked(f@, name@) is None,
        },
{
    match f.get(name) {
        Some(v) => if text::chars_of(v.as_str()).len() > 0 {
            Some(text::copy(v.as_str()))
        } else {
            None
        },
        None => None,
    }
}

/// There are as many pools by number as there are pools.
proof fn lemma_pool_ids(c: ClusterView)
    requires
        c.placement.filed(),
    ensures
        pool_ids(c).len() == c.placement.pools.dom().len(),
        forall|i: int|
            0 <= i < pool_ids(c).len() ==> c.placement.pools.contains_key(#[trigger] pool_ids(c)[i]),
        forall|p: PoolId| #[trigger]
            c.placement.pools.contains_key(p) ==> exists|i: int|
                0 <= i < pool_ids(c).len() && #[trigger] pool_ids(c)[i] == p,
{
    let dom = c.placement.pools.dom();
    let lt = sorted_map::key_order::<PoolId>();
    <PoolId as sorted_map::Key>::lemma_order();
    crate::order::lemma_ranking_exists(dom, lt);
    crate::order::lemma_ranking_len(pool_ids(c), dom, lt);
    assert forall|i: int| 0 <= i < pool_ids(c).len() implies c.placement.pools.contains_key(
        #[trigger] pool_ids(c)[i],
    ) by {
        assert(pool_ids(c).contains(pool_ids(c)[i]));
        assert(dom.contains(pool_ids(c)[i]));
    }
    assert forall|p: PoolId| #[trigger] c.placement.pools.contains_key(p) implies exists|i: int|
        0 <= i < pool_ids(c).len() && #[trigger] pool_ids(c)[i] == p by {
        assert(dom.contains(p));
        assert(pool_ids(c).contains(p));
    }
}

proof fn lemma_sums_grow(pools: Map<PoolId, PoolState>, ids: Seq<PoolId>, m: nat, n: nat)
    requires
        m <= n,
    ensures
        capacities(pools, ids, m) <= capacities(pools, ids, n),
        uses(pools, ids, m) <= uses(pools, ids, n),
    decreases n,
{
    if m < n {
        lemma_sums_grow(pools, ids, m, (n - 1) as nat);
    }
}

/// A run of writes: the cluster after it, how the writes fared, and the error that
/// ended it early, if one did.
pub struct PutRun {
    pub cluster: ClusterView,
    pub ok: nat,
    pub throttled: nat,
    pub quota_exceeded: nat,
    pub no_space: nat,
    pub first_error: Option<Seq<char>>,
    pub refused: Option<ErrorView>,
}

/// A batch of writes: whose, in which scope, how large, and how they are named.
pub struct BatchView {
    pub tenant: TenantId,
    pub scope: Seq<char>,
    pub prefix: Seq<char>,
    pub size: u64,
    pub count: u32,
}

/// The name of an object.
pub open spec fn object_name(prefix: Seq<char>, n: nat) -> Seq<char> {
    prefix + "/"@ + text::decimal(n)
}

/// A run with an error counted.
pub open spec fn counted(run: PutRun, e: ErrorView) -> PutRun {
    PutRun {
        throttled: run.throttled + (if e is Throttled { 1nat } else { 0nat }),
        quota_exceeded: run.quota_exceeded + (if e is QuotaExceeded { 1nat } else { 0nat }),
        no_space: run.no_space + (if e is NoSpace { 1nat } else { 0nat }),
        first_error: match run.first_error {
            Some(m) => Some(m),
            None => Some(types::message(e)),
        },
        ..run
    }
}

/// A run after one more write.
pub open spec fn after_put(run: PutRun, b: BatchView, n: nat) -> PutRun {
    let (cluster, r) = run.cluster.put_object(b.tenant, b.scope, object_name(b.prefix, n), b.size);
    let next = PutRun { cluster, ..run };
    match r {
        Ok(_) => PutRun { ok: run.ok + 1, ..next },
        Err(e) => if e is UnknownTenant {
            PutRun { refused: Some(e), ..next }
        } else {
            counted(next, e)
        },
    }
}

/// The first `n` writes of a batch; the names go on from the number of objects
/// that the tenant has.
pub open spec fn put_run(c: ClusterView, b: BatchView, n: nat) -> PutRun
    decreases n,
{
    if n == 0 {
        PutRun {
            cluster: c,
            ok: 0,
            throttled: 0,
            quota_exceeded: 0,
            no_space: 0,
            first_error: None,
            refused: None,
        }
    } else {
        let run = put_run(c, b, (n - 1) as nat);
        if run.refused is Some {
            run
        } else {
            after_put(run, b, (usage_of(c, b.tenant).objects + (n - 1)) as nat)
        }
    }
}

/// The batch that a request asks for.
pub open spec fn asked_batch(tenant: TenantId, f: FieldsView) -> BatchView {
    let count = or32(field32(f, "count"@), 1);
    BatchView {
        tenant,
        scope: field_or(f, "scope"@, "default"@),
        prefix: field_or(f, "prefix"@, "obj"@),
        size: or64(field64(f, "size_bytes"@), 4096),
        count: if count > 100_000 { 100_000 } else { count },
    }
}

/// How a run went.
pub open spec fn run_json(run: PutRun, count: u32) -> JsonView {
    JsonView::Obj(
        seq![
            ("requested"@, JsonView::Num(count as u64)),
            ("ok"@, JsonView::Num(run.ok as u64)),
            ("throttled"@, JsonView::Num(run.throttled as u64)),
            ("quota_exceeded"@, JsonView::Num(run.quota_exceeded as u64)),
            ("no_space"@, JsonView::Num(run.no_space as u64)),
            (
                "first_error"@,
                match run.first_error {
                    Some(m) => JsonView::Str(m),
                    None => JsonView::Null,
                },
            ),
            ("active_buckets"@, count32(run.cluster.running.dom().len())),
        ],
    )
}

pub open spec fn put_objects(c: ClusterView, id: Seq<char>, body: Seq<char>) -> (ClusterView, ResponseView) {
    match number32(id) {
        None => (c, bad_tenant()),
        Some(n) => {
            let b = asked_batch(TenantId(n), json::flat_fields(body));
            let run = put_run(c, b, b.count as nat);
            (
                run.cluster,
                match run.refused {
                    Some(e) => error_view(e),
                    None => json_response(200, run_json(run, b.count)),
                },
            )
        },
    }
}

/// Whether the numbers that come up in write `k` of a batch fit.
pub open spec fn write_fits(c: ClusterView, b: BatchView, k: nat) -> bool {
    &&& usage_of(c, b.tenant).objects + k <= u64::MAX
    &&& put_run(c, b, k).cluster.can_put(b.tenant, b.scope, b.size)
}

/// Whether the numbers that come up in a batch fit.
pub open spec fn can_run(c: ClusterView, b: BatchView) -> bool {
    forall|k: nat| k < b.count && put_run(c, b, k).refused is None ==> #[trigger] write_fits(c, b, k)
}

/// Whether a batch comes as far as write `k`, which does not fit.
pub open spec fn run_breaks_at(c: ClusterView, b: BatchView, k: nat) -> bool {
    &&& k < b.count
    &&& put_run(c, b, k).refused is None
    &&& !write_fits(c, b, k)
    &&& forall|j: nat| j < k ==> #[trigger] write_fits(c, b, j)
}

/// What a request does and what the response is.
pub open spec fn handled(c: ClusterView, method: Seq<char>, path: Seq<char>, body: Seq<char>) -> (
    ClusterView,
    ResponseView,
) {
    match route(method, parts_from(path_part(path), 0)) {
        Route::Page => (
            c,
            ResponseView { status: 200, content_type: "text/html; charset=utf-8"@, body: UI_HTML@ },
        ),
        Route::Summary => (c, json_response(200, summary_json(c))),
        Route::Pools => (c, pool_list(c)),
        Route::CreatePool => create_pool(c, body),
        Route::Tenants => (c, tenant_list(c)),
        Route::CreateTenant => create_tenant(c, body),
        Route::Tenant(id) => (c, tenant_detail(c, id)),
        Route::DeleteTenant(id) => delete_tenant(c, id),
        Route::PutObjects(id) => put_objects(c, id, body),
        Route::SetQuota(id) => set_scope_quota(c, id, body),
        Route::Tick => ticked(c, query_part(path)),
        Route::Unknown => (c, failure(404, "no route: "@ + method + " "@ + path_part(path))),
    }
}

/// Whether the numbers that come up in a request fit.
pub open spec fn fits(c: ClusterView, method: Seq<char>, path: Seq<char>, body: Seq<char>) -> bool {
    match route(method, parts_from(path_part(path), 0)) {
        Route::Summary => can_sum_up(c),
        Route::CreateTenant => can_create_tenant(c, body),
        Route::PutObjects(id) => number32(id) matches Some(n) ==> can_run(
            c,
            asked_batch(TenantId(n), json::flat_fields(body)),
        ),
        Route::Tick => forall|k: nat|
            k < ticks_asked(query_part(path)) ==> (#[trigger] after_ticks(c, k)).can_tick(),
        _ => true,
    }
}

/// Whether `after` is how a request whose numbers do not fit leaves the cluster: as
/// the request found it, or with the part of a series done that comes before.
pub open spec fn broken_off(
    c: ClusterView,
    method: Seq<char>,
    path: Seq<char>,
    body: Seq<char>,
    after: ClusterView,
) -> bool {
    match route(method, parts_from(path_part(path), 0)) {
        Route::PutObjects(id) => number32(id) matches Some(n) && exists|k: nat| #[trigger]
            run_breaks_at(c, asked_batch(TenantId(n), json::flat_fields(body)), k) && after == put_run(
                c,
                asked_batch(TenantId(n), json::flat_fields(body)),
                k,
            ).cluster,
        Route::Tick => exists|k: nat| #[trigger]
            ticks_break_at(c, ticks_asked(query_part(path)), k) && after == after_ticks(c, k),
        _ => after == c,
    }
}

/// What a request asks for.
enum Request {
    Page,
    Summary,
    Pools,
    CreatePool,
    Tenants,
    CreateTenant,
    Tenant(String),
    DeleteTenant(String),
    PutObjects(String),
    SetQuota(String),
    Tick,
    Unknown,
}

impl Request {
    spec fn route(self) -> Route {
        match self {
            Request::Page => Route::Page,
            Request::Summary => Route::Summary,
            Request::Pools => Route::Pools,
            Request::CreatePool => Route::CreatePool,
            Request::Tenants => Route::Tenants,
            Request::CreateTenant => Route::CreateTenant,
            Request::Tenant(id) => Route::Tenant(id@),
            Request::DeleteTenant(id) => Route::DeleteTenant(id@),
            Request::PutObjects(id) => Route::PutObjects(id@),
            Request::SetQuota(id) => Route::SetQuota(id@),
            Request::Tick => Route::Tick,
            Request::Unknown => Route::Unknown,
        }
    }
}

fn reads(v: &Vec<char>, s: &str) -> (r: bool)
    ensures
        r == (v@ == s@),
{
    text::same_text(text::text_of(v).as_str(), s)
}

/// Finds out what a request asks for.
fn find_route(method: &str, parts: &Vec<Vec<char>>) -> (r: Request)
    ensures
        r.route() == route(method@, char_views(parts@)),
{
    let ghost views = char_views(parts@);
    let get = text::same_text(method, "GET");
    let post = text::same_text(method, "POST");
    let n: usize = parts.len();
    if get && n == 0 {
        return Request::Page;
    }
    if n >= 1 {
        assert(views[0] == parts@[0]@);
    }
    if get && n == 1 && reads(&parts[0], "index.html") {
        return Request::Page;
    }
    if n < 2 || !reads(&parts[0], "api") {
        return Request::Unknown;
    }
    assert(views[1] == parts@[1]@);
    if n == 2 {
        if get && reads(&parts[1], "cluster") {
            return Request::Summary;
        }
        if get && reads(&parts[1], "pools") {
            return Request::Pools;
        }
        if post && reads(&parts[1], "pools") {
            return Request::CreatePool;
        }
        if get && reads(&parts[1], "tenants") {
            return Request::Tenants;
        }
        if post && reads(&parts[1], "tenants") {
            return Request::CreateTenant;
        }
        if post && reads(&parts[1], "tick") {
            return Request::Tick;
        }
        return Request::Unknown;
    }
    assert(views[2] == parts@[2]@);
    if !reads(&parts[1], "tenants") {
        return Request::Unknown;
    }
    if n == 3 {
        if get {
            return Request::Tenant(text::text_of(&parts[2]));
        }
        if text::same_text(method, "DELETE") {
            return Request::DeleteTenant(text::text_of(&parts[2]));
        }
        return Request::Unknown;
    }
    assert(views[3] == parts@[3]@);
    if n == 4 && post {
        if reads(&parts[3], "objects") {
            return Request::PutObjects(text::text_of(&parts[2]));
        }
        if reads(&parts[3], "quota") {
            return Request::SetQuota(text::text_of(&parts[2]));
        }
    }
    Request::Unknown
}

/// Splits a path from its query.
fn split_query(path: &str) -> (r: (Vec<char>, Vec<char>))
    ensures
        r.0@ == path_part(path@),
        r.1@ == query_part(path@),
{
    let s = text::chars_of(path);
    let ghost other = |c: char| c != '?';
    let mut mark: usize = 0;
    while mark < s.len() && s[mark] != '?'
        invariant
            mark <= s@.len(),
            other == (|c: char| c != '?'),
            text::past(s@, 0, other) == text::past(s@, mark as int, other),
        decreases s.len() - mark,
    {
        mark += 1;
    }
    let before = text::part(&s, 0, mark);
    assert(before@ =~= path_part(path@));
    let after = if mark < s.len() {
        text::part(&s, mark + 1, s.len())
    } else {
        Vec::new()
    };
    assert(after@ =~= query_part(path@));
    (before, after)
}

/// A batch of writes.
struct Batch {
    tenant: TenantId,
    scope: String,
    prefix: String,
    size: u64,
    count: u32,
}

impl View for Batch {
    type V = BatchView;

    closed spec fn view(&self) -> BatchView {
        BatchView {
            tenant: self.tenant,
            scope: self.scope@,
            prefix: self.prefix@,
            size: self.size,
            count: self.count,
        }
    }
}

/// The batch that a request asks for.
fn batch_in(tenant: TenantId, body: &str) -> (b: Batch)
    ensures
        b@ == asked_batch(tenant, json::flat_fields(body@)),
{
    let f = parse_flat(body);
    let count: u32 = match get32(&f, "count") {
        Some(n) => n,
        None => 1,
    };
    Batch {
        tenant,
        scope: get_or(&f, "scope", "default"),
        prefix: get_or(&f, "prefix", "obj"),
        size: get64_or(&f, "size_bytes", 4096),
        count: if count > 100_000 {
            100_000
        } else {
            count
        },
    }
}

/// Every write of a batch is counted at most once, under one heading, and a batch that
/// met no error went through whole.
pub proof fn law_counts_of_a_run(c: ClusterView, b: BatchView, n: nat)
    ensures
        ({
            let run = put_run(c, b, n);
            &&& run.ok + run.throttled + run.quota_exceeded + run.no_space <= n
            &&& run.first_error is None && run.refused is None ==> run.ok == n
        }),
    decreases n,
{
    if n > 0 {
        law_counts_of_a_run(c, b, (n - 1) as nat);
    }
}

/// A run that was refused goes on no further.
pub proof fn lemma_run_ends(c: ClusterView, b: BatchView, m: nat, n: nat)
    requires
        m <= n,
        put_run(c, b, m).refused is Some,
    ensures
        put_run(c, b, n) == put_run(c, b, m),
    decreases n,
{
    if m < n {
        lemma_run_ends(c, b, m, (n - 1) as nat);
    }
}

/// How the writes of a batch fared.
struct Tally {
    ok: u32,
    throttled: u32,
    quota_exceeded: u32,
    no_space: u32,
    first_error: Option<String>,
}

impl Tally {
    /// The run that was counted.
    spec fn run(self, cluster: ClusterView) -> PutRun {
        PutRun {
            cluster,
            ok: self.ok as nat,
            throttled: self.throttled as nat,
            quota_exceeded: self.quota_exceeded as nat,
            no_space: self.no_space as nat,
            first_error: match self.first_error {
                Some(m) => Some(m@),
                None => None,
            },
            refused: None,
        }
    }

    /// Counts a write that failed, but was not refused.
    fn count(&mut self, e: &Error)
        requires
            !(e@ is UnknownTenant),
            old(self).throttled < u32::MAX,
            old(self).quota_exceeded < u32::MAX,
            old(self).no_space < u32::MAX,
        ensures
            forall|c: ClusterView| #[trigger] final(self).run(c) == counted(old(self).run(c), e@),
            final(self).ok == old(self).ok,
            final(self).throttled <= old(self).throttled + 1,
            final(self).quota_exceeded <= old(self).quota_exceeded + 1,
            final(self).no_space <= old(self).no_space + 1,
    {
        match e {
            Error::Throttled { .. } => {
                self.throttled = self.throttled + 1;
            },
            Error::QuotaExceeded { .. } => {
                self.quota_exceeded = self.quota_exceeded + 1;
            },
            Error::NoSpace { .. } => {
                self.no_space = self.no_space + 1;
            },
            _ => {},
        }
        if self.first_error.is_none() {
            self.first_error = Some(e.to_string());
        }
    }
}

impl Console {
    /// Does one write of a batch and counts how it went, unless it is refused.
    fn write_one(&mut self, b: &Batch, number: u64, t: &mut Tally) -> (r: Result<(), Error>)
        requires
            old(self).wf(),
            old(self)@.can_put(b@.tenant, b@.scope, b@.size),
            old(t).ok < u32::MAX,
            old(t).throttled < u32::MAX,
            old(t).quota_exceeded < u32::MAX,
            old(t).no_space < u32::MAX,
        ensures
            final(self).wf(),
            match r {
                Ok(()) => after_put(old(t).run(old(self)@), b@, number as nat) == final(t).run(final(self)@),
                Err(e) => {
                    let run = after_put(old(t).run(old(self)@), b@, number as nat);
                    run.refused == Some(e@) && run.cluster == final(self)@
                },
            },
            final(t).ok <= old(t).ok + 1,
            final(t).throttled <= old(t).throttled + 1,
            final(t).quota_exceeded <= old(t).quota_exceeded + 1,
            final(t).no_space <= old(t).no_space + 1,
    {
        let key = text::numbered(text::join(b.prefix.as_str(), "/").as_str(), number);
        assert(key@ == object_name(b@.prefix, number as nat));
        match self.cluster.put_object(b.tenant, b.scope.as_str(), key.as_str(), b.size) {
            Ok(()) => {
                t.ok = t.ok + 1;
                Ok(())
            },
            Err(e) => {
                if let Error::UnknownTenant(_) = &e {
                    return Err(e);
                }
                t.count(&e);
                Ok(())
            },
        }
    }

    /// Does the writes of a batch, up to one that is refused or does not fit.
    fn run(&mut self, b: &Batch) -> (r: Option<Result<Tally, Error>>)
        requires
            old(self).wf(),
            b@.count <= 100_000,
        ensures
            final(self).wf(),
            match r {
                Some(done) => {
                    &&& can_run(old(self)@, b@)
                    &&& final(self)@ == put_run(old(self)@, b@, b@.count as nat).cluster
                    &&& match done {
                        Ok(t) => put_run(old(self)@, b@, b@.count as nat) == t.run(final(self)@),
                        Err(e) => put_run(old(self)@, b@, b@.count as nat).refused == Some(e@),
                    }
                },
                None => exists|k: nat| #[trigger]
                    run_breaks_at(old(self)@, b@, k) && final(self)@ == put_run(old(self)@, b@, k).cluster,
            },
    {
        let ghost start = self@;
        let ghost batch = b@;
        let base: u64 = self.usage(b.tenant).objects;
        let mut t = Tally { ok: 0, throttled: 0, quota_exceeded: 0, no_space: 0, first_error: None };
        let mut i: u32 = 0;
        while i < b.count
            invariant
                i <= b.count <= 100_000,
                self.wf(),
                start == old(self)@,
                batch == b@,
                base == usage_of(start, b.tenant).objects,
                forall|k: nat| k < i ==> #[trigger] write_fits(start, batch, k),
                t.ok <= i,
                t.throttled <= i,
                t.quota_exceeded <= i,
                t.no_space <= i,
                put_run(start, batch, i as nat) == t.run(self@),
            decreases b.count - i,
        {
            let ghost before = self@;
            assert(put_run(start, batch, i as nat).cluster == before);
            if base > u64::MAX - i as u64 || !self.cluster.put_fits(b.tenant, b.scope.as_str(), b.size) {
                assert(!write_fits(start, batch, i as nat));
                assert(run_breaks_at(start, batch, i as nat));
                return None;
            }
            assert(write_fits(start, batch, i as nat));
            assert(put_run(start, batch, (i + 1) as nat) == after_put(t.run(before), batch, (base + i) as nat));
            match self.write_one(b, base + i as u64, &mut t) {
                Ok(()) => {},
                Err(e) => {
                    proof {
                        lemma_run_ends(start, batch, (i + 1) as nat, batch.count as nat);
                        assert forall|k: nat|
                            k < batch.count && put_run(start, batch, k).refused is None implies #[trigger] write_fits(
                            start,
                            batch,
                            k,
                        ) by {
                            if k > i {
                                lemma_run_ends(start, batch, (i + 1) as nat, k);
                            }
                        }
                    }
                    return Some(Err(e));
                },
            }
            i += 1;
        }
        Some(Ok(t))
    }

    /// Simulates writes, to show limits and quotas at work and how objects spread
    /// over buckets.
    fn put_objects(&mut self, id: &str, body: &str) -> (r: Option<Response>)
        requires
            old(self).wf(),
        ensures
            final(self).wf(),
            match r {
                Some(response) => {
                    &&& number32(id@) matches Some(n) ==> can_run(
                        old(self)@,
                        asked_batch(TenantId(n), json::flat_fields(body@)),
                    )
                    &&& (final(self)@, response@) == put_objects(old(self)@, id@, body@)
                },
                None => number32(id@) matches Some(n) && exists|k: nat| #[trigger]
                    run_breaks_at(old(self)@, asked_batch(TenantId(n), json::flat_fields(body@)), k)
                        && final(self)@ == put_run(
                        old(self)@,
                        asked_batch(TenantId(n), json::flat_fields(body@)),
                        k,
                    ).cluster,
            },
    {
        let n: u32 = match parse32(id) {
            Some(n) => n,
            None => {
                return Some(Response::err(400, "bad tenant id"));
            },
        };
        let b = batch_in(TenantId(n), body);
        let t = match self.run(&b) {
            None => {
                return None;
            },
            Some(Err(e)) => {
                return Some(error_response(&e));
            },
            Some(Ok(t)) => t,
        };
        let active: u64 = (self.cluster.active_buckets() as u64) % 0x1_0000_0000;
        let first = match &t.first_error {
            Some(m) => Json::str(m.as_str()),
            None => json::null(),
        };
        let mut fields: Vec<(String, Json)> = Vec::new();
        json::push_field(&mut fields, "requested", Json::num(b.count as u64));
        json::push_field(&mut fields, "ok", Json::num(t.ok as u64));
        json::push_field(&mut fields, "throttled", Json::num(t.throttled as u64));
        json::push_field(&mut fields, "quota_exceeded", Json::num(t.quota_exceeded as u64));
        json::push_field(&mut fields, "no_space", Json::num(t.no_space as u64));
        json::push_field(&mut fields, "first_error", first);
        json::push_field(&mut fields, "active_buckets", Json::num(active));
        assert(json::field_views(fields@) =~= run_json(t.run(self@), b.count)->Obj_0);
        Some(Response::ok(json::object(fields)))
    }

    /// Handles a request whose numbers fit: method, path with query, and body.
    pub fn handle(&mut self, method: &str, path: &str, body: &str) -> (r: Response)
        requires
            old(self).wf(),
            fits(old(self)@, method@, path@, body@),
        ensures
            final(self).wf(),
            (final(self)@, r@) == handled(old(self)@, method@, path@, body@),
    {
        match self.try_handle(method, path, body) {
            Some(r) => r,
            None => vstd::pervasive::unreached(),
        }
    }

    /// Handles a request, unless a number that comes up in it does not fit in 64 bits.
    pub fn try_handle(&mut self, method: &str, path: &str, body: &str) -> (r: Option<Response>)
        requires
            old(self).wf(),
        ensures
            final(self).wf(),
            match r {
                Some(response) => {
                    &&& fits(old(self)@, method@, path@, body@)
                    &&& (final(self)@, response@) == handled(old(self)@, method@, path@, body@)
                },
                None => {
                    &&& !fits(old(self)@, method@, path@, body@)
                    &&& broken_off(old(self)@, method@, path@, body@, final(self)@)
                },
            },
    {
        let (p, query): (Vec<char>, Vec<char>) = split_query(path);
        let parts = split_path(&p);
        match find_route(method, &parts) {
            Request::Page => Some(Response::html(UI_HTML)),
            Request::Summary => if self.sums_fit() {
                Some(self.cluster_summary())
            } else {
                None
            },
            Request::Pools => Some(self.list_pools()),
            Request::CreatePool => Some(self.create_pool(body)),
            Request::Tenants => Some(self.list_tenants()),
            Request::CreateTenant => if self.tenant_fits(body) {
                Some(self.create_tenant(body))
            } else {
                None
            },
            Request::Tenant(id) => Some(self.tenant_detail(id.as_str())),
            Request::DeleteTenant(id) => Some(self.delete_tenant(id.as_str())),
            Request::PutObjects(id) => self.put_objects(id.as_str(), body),
            Request::SetQuota(id) => Some(self.set_scope_quota(id.as_str(), body)),
            Request::Tick => self.tick(&query),
            Request::Unknown => {
                let mut msg = text::join("no route: ", method);
                msg.append(" ");
                msg.append(text::text_of(&p).as_str());
                Some(Response::err(404, msg.as_str()))
            },
        }
    }

    /// Tests whether there is a number left for a tenant, if one is to be created.
    fn tenant_fits(&self, body: &str) -> (b: bool)
        requires
            self.wf(),
        ensures
            b == can_create_tenant(self@, body@),
    {
        let f = parse_flat(body);
        match non_empty(&f, "name") {
            Some(name) => self.cluster.tenants.last_id() < 0xffff_ffff || self.cluster.tenants.has_name(name.as_str()),
            None => true,
        }
    }

    /// Tests whether the sums of a summary fit.
    fn sums_fit(&self) -> (b: bool)
        requires
            self.wf(),
        ensures
            b == can_sum_up(self@),
    {
        proof {
            lemma_pool_ids(self@);
        }
        let ghost c = self@;
        let ghost ids = pool_ids(c);
        let pools = self.cluster.placement.pools();
        let mut cap: u64 = 0;
        let mut used: u64 = 0;
        let mut i: usize = 0;
        while i < pools.len()
            invariant
                i <= pools@.len(),
                c == self@,
                ids == pool_ids(c),
                pools@.len() == ids.len(),
                forall|k: int| 0 <= k < pools@.len() ==> *(#[trigger] pools@[k]) == c.placement.pools[ids[k]],
                cap == capacities(c.placement.pools, ids, i as nat),
                used == uses(c.placement.pools, ids, i as nat),
            decreases pools.len() - i,
        {
            proof {
                lemma_sums_grow(c.placement.pools, ids, (i + 1) as nat, ids.len());
            }
            let p: &PoolState = pools[i];
            assert(p == c.placement.pools[ids[i as int]]);
            match (cap.checked_add(p.capacity), used.checked_add(p.used)) {
                (Some(a), Some(b)) => {
                    cap = a;
                    used = b;
                },
                _ => {
                    return false;
                },
            }
            i += 1;
        }
        true
    }
}

/// A shared pool, some of it in use.
pub open spec fn demo_pool(id: u32, media: MediaClass, capacity: u64, used: u64) -> PoolState {
    PoolState { id: PoolId(id), media, capacity, used, load_headroom_permille: 700, dedicated_to: None }
}

/// The rates of the tenants in the demonstration.
pub open spec fn demo_qos() -> QosSpec {
    QosSpec { metadata_iops: 50_000, data_iops: 100_000, data_bw_bytes: 10_737_418_240, burst_multiple: 2 }
}

/// A cluster for demonstration: four pools and two tenants.
pub open spec fn demo_cluster() -> ClusterView {
    let pools = ClusterView::empty(4096, 1_000_000).add_pool(
        demo_pool(1, MediaClass::TlcNvme, 500_000, 120_000),
    ).add_pool(demo_pool(2, MediaClass::TlcNvme, 500_000, 60_000)).add_pool(
        demo_pool(3, MediaClass::QlcNvme, 2_000_000, 400_000),
    ).add_pool(demo_pool(4, MediaClass::Hdd, 8_000_000, 2_400_000));
    let acme = pools.create_tenant(
        "acme"@,
        QuotaLimit { capacity_bytes: Some(0x4_0000_0000_0000), object_count: Some(10_000_000_000) },
        demo_qos(),
        Placement::Shared,
    ).0;
    acme.create_tenant(
        "globex"@,
        QuotaLimit { capacity_bytes: Some(0x2000_0000_0000), object_count: Some(1_000_000_000) },
        demo_qos(),
        Placement::Shared,
    ).0
}

/// The same with the first `n` objects written.
pub open spec fn demo(n: nat) -> ClusterView
    decreases n,
{
    if n == 0 {
        demo_cluster()
    } else {
        demo((n - 1) as nat).put_object(
            TenantId(1),
            "photos"@,
            "demo/img-"@ + text::decimal((n - 1) as nat) + ".jpg"@,
            (4096 + (n - 1) * 17) as u64,
        ).0
    }
}

fn demo_pool_of(id: u32, media: MediaClass, capacity: u64, used: u64) -> (p: PoolState)
    ensures
        p == demo_pool(id, media, capacity, used),
{
    PoolState { id: PoolId(id), media, capacity, used, load_headroom_permille: 700, dedicated_to: None }
}

/// The cluster for demonstration has room for its objects.
proof fn lemma_demo_has_room(c: ClusterView)
    requires
        c == demo_cluster(),
        c.in_order(),
        c.placement.filed(),
        c.extents.sound(),
    ensures
        room::room(c, TenantId(1), "photos"@, 5167, 64),
{
    reveal_strlit("acme");
    reveal_strlit("globex");
    assert(c.stripes =~= Map::empty());
    assert(c.quotas.scopes =~= Map::empty());
    assert(c.quotas.tenants.contains_key(TenantId(1)) ==> c.quotas.tenants[TenantId(1)].usage == (Usage {
        bytes: 0,
        objects: 0,
    }));
}

impl Console {
    /// A console with something to show: pools, two tenants, a few objects.
    pub fn with_demo_data() -> (r: Self)
        ensures
            r.wf(),
            r@ == demo(64),
    {
        let mut c = Cluster::new(4096, 1_000_000);
        c.add_pool(demo_pool_of(1, MediaClass::TlcNvme, 500_000, 120_000));
        c.add_pool(demo_pool_of(2, MediaClass::TlcNvme, 500_000, 60_000));
        c.add_pool(demo_pool_of(3, MediaClass::QlcNvme, 2_000_000, 400_000));
        c.add_pool(demo_pool_of(4, MediaClass::Hdd, 8_000_000, 2_400_000));
        let qos = QosSpec {
            metadata_iops: 50_000,
            data_iops: 100_000,
            data_bw_bytes: 10_737_418_240,
            burst_multiple: 2,
        };
        proof {
            reveal_strlit("acme");
            reveal_strlit("globex");
        }
        let ghost pools = c@;
        let acme = c.create_tenant(
            "acme",
            QuotaLimit { capacity_bytes: Some(0x4_0000_0000_0000), object_count: Some(10_000_000_000) },
            qos,
            Placement::Shared,
        );
        assert(!pools.tenants.name_taken("acme"@));
        let globex = c.create_tenant(
            "globex",
            QuotaLimit { capacity_bytes: Some(0x2000_0000_0000), object_count: Some(1_000_000_000) },
            qos,
            Placement::Shared,
        );
        let tenant: TenantId = match acme {
            Ok(id) => id,
            Err(_) => TenantId(1),
        };
        proof {
            assert(c@ == demo_cluster());
            lemma_demo_has_room(c@);
        }
        let mut i: u64 = 0;
        while i < 64
            invariant
                i <= 64,
                c.wf(),
                tenant == TenantId(1),
                c@ == demo(i as nat),
                room::room(c@, TenantId(1), "photos"@, 5167, (64 - i) as nat),
            decreases 64 - i,
        {
            let key = text::around("demo/img-", i, ".jpg");
            let size: u64 = 4096 + i * 17;
            let ghost before = c@;
            proof {
                room::lemma_room_is_enough(c@, TenantId(1), "photos"@, 5167, (64 - i) as nat, size);
                room::lemma_room_for_the_rest(c@, TenantId(1), "photos"@, 5167, (64 - i) as nat, key@, size);
            }
            let _ = c.put_object(tenant, "photos", key.as_str(), size);
            i += 1;
        }
        Console { cluster: c }
    }
}

} // verus!
