//! What the console promises: looking changes nothing, what is refused changes nothing,
//! and what was created, or deleted, is shown, or gone, from then on.

use vstd::prelude::*;

use crate::cluster::ClusterView;
use crate::console;
use crate::json;
use crate::json::JsonView;
use crate::order;
use crate::placement::PoolState;
use crate::quota::Usage;
use crate::sorted_map;
use crate::sums;
use crate::tenant;
use crate::tenant::{KeyView, Placement, SpecView};
use crate::text;
use crate::types;
use crate::types::{BucketId, ErrorView, MediaClass, PoolId, TenantId};

verus! {

/// Looking changes nothing: no GET request does anything to the cluster.
pub proof fn law_get_changes_nothing(c: ClusterView, path: Seq<char>, body: Seq<char>)
    ensures
        console::handled(c, "GET"@, path, body).0 == c,
{
    reveal_strlit("GET");
    reveal_strlit("POST");
    reveal_strlit("DELETE");
    assert("GET"@.len() == 3 && "POST"@.len() == 4 && "DELETE"@.len() == 6);
}

/// Nor does a request that leads nowhere; it is answered with 404.
pub proof fn law_unknown_routes_change_nothing(c: ClusterView, method: Seq<char>, path: Seq<char>, body: Seq<char>)
    requires
        console::route(method, console::parts_from(console::path_part(path), 0)) is Unknown,
    ensures
        ({
            let (w, r) = console::handled(c, method, path, body);
            w == c && r.status == 404
        }),
{
}

/// What is refused changes nothing: a pool, a tenant, a deletion or a quota that is
/// answered with an error leaves the cluster as it was.
pub proof fn law_refusals_change_nothing(c: ClusterView, id: Seq<char>, body: Seq<char>)
    ensures
        console::create_pool(c, body).1.status >= 400 ==> console::create_pool(c, body).0 == c,
        console::create_tenant(c, body).1.status >= 400 ==> console::create_tenant(c, body).0 == c,
        console::delete_tenant(c, id).1.status >= 400 ==> console::delete_tenant(c, id).0 == c,
        console::set_scope_quota(c, id, body).1.status >= 400 ==> console::set_scope_quota(c, id, body).0 == c,
{
}

/// An unknown tenant is answered with 404, whatever is asked of it: to be shown, to be
/// deleted, to have a quota set or to write. Nothing changes.
pub proof fn law_unknown_tenants_are_not_found(c: ClusterView, n: u32, id: Seq<char>, body: Seq<char>)
    requires
        console::number32(id) == Some(n),
        !c.tenants.tenants.contains_key(TenantId(n)),
        !c.quotas.tenants.contains_key(TenantId(n)),
    ensures
        ({
            let f = json::flat_fields(body);
            let gone = console::failure(404, "unknown tenant "@ + text::decimal(n as nat));
            &&& console::tenant_detail(c, id) == gone
            &&& console::delete_tenant(c, id) == (c, gone)
            &&& console::asked(f, "scope"@) is Some ==> console::set_scope_quota(c, id, body) == (c, gone)
            &&& console::asked_batch(TenantId(n), f).count > 0 ==> console::put_objects(c, id, body) == (c, gone)
        }),
{
    let b = console::asked_batch(TenantId(n), json::flat_fields(body));
    if b.count > 0 {
        let first = console::put_run(c, b, 1);
        assert(console::put_run(c, b, 0).cluster == c);
        assert(first.refused == Some(ErrorView::UnknownTenant(TenantId(n))) && first.cluster == c);
        console::lemma_run_ends(c, b, 1, b.count as nat);
    }
}

/// A tenant that was created is shown from then on, under the number that the answer
/// gives: its name, a key of the first generation, and, where no account of that number
/// was there before, nothing in use.
pub proof fn law_created_tenants_are_shown(c: ClusterView, body: Seq<char>, name: Seq<char>)
    requires
        console::asked(json::flat_fields(body), "name"@) == Some(name),
        !c.tenants.name_taken(name),
        c.tenants.next_id < u32::MAX,
    ensures
        ({
            let (w, r) = console::create_tenant(c, body);
            let id = TenantId((c.tenants.next_id + 1) as u32);
            let key = KeyView { key_id: name + "-kek"@, generation: 1 };
            let spec = SpecView { name, placement: console::asked_placement(json::flat_fields(body)) };
            &&& r.status == 201
            &&& w.tenants.get(id) == Ok::<_, ErrorView>(spec)
            &&& w.tenants.key(id) == Ok::<_, ErrorView>(key)
            &&& !c.quotas.tenants.contains_key(id) ==> console::usage_of(w, id) == (Usage { bytes: 0, objects: 0 })
            &&& console::tenant_detail(w, text::decimal(id.0 as nat)) == console::json_response(
                200,
                console::detail_json(w, id, spec),
            )
        }),
{
    text::law_decimals_read_back((c.tenants.next_id + 1) as nat, u32::MAX as nat);
}

/// A tenant that was deleted is not found any more.
pub proof fn law_deleted_tenants_are_gone(c: ClusterView, n: u32, id: Seq<char>)
    requires
        console::number32(id) == Some(n),
        c.tenants.tenants.contains_key(TenantId(n)),
    ensures
        ({
            let (w, r) = console::delete_tenant(c, id);
            &&& r.status == 200
            &&& console::tenant_detail(w, id) == console::failure(
                404,
                "unknown tenant "@ + text::decimal(n as nat),
            )
        }),
{
}

/// A pool that was created is listed from then on, with what the request gave; the
/// others stay as they were.
pub proof fn law_created_pools_are_listed(c: ClusterView, body: Seq<char>, other: PoolId)
    requires
        console::create_pool(c, body).1.status == 200,
    ensures
        ({
            let f = json::flat_fields(body);
            let w = console::create_pool(c, body).0;
            let id = PoolId(console::field32(f, "id"@)->0);
            &&& console::field32(f, "id"@) is Some
            &&& w.placement.pools.contains_key(id)
            &&& w.placement.pools[id].capacity == console::field64(f, "capacity"@)->0
            &&& w.placement.pools[id].used == 0
            &&& console::media_named(f["media"@]) == Some(w.placement.pools[id].media)
            &&& other != id ==> w.placement.pools[other] == c.placement.pools[other]
        }),
{
}

/// Where requests lead: the table of methods and paths. The parts of the path are those
/// between slashes; the query does not count.
pub proof fn law_requests_find_their_way(
    c: ClusterView,
    method: Seq<char>,
    path: Seq<char>,
    body: Seq<char>,
    id: Seq<char>,
)
    ensures
        ({
            let parts = console::parts_from(console::path_part(path), 0);
            let (w, r) = console::handled(c, method, path, body);
            let at = |m: Seq<char>, p: Seq<Seq<char>>| method == m && parts == p;
            let (get, post) = ("GET"@, "POST"@);
            let api = "api"@;
            &&& at(get, Seq::empty()) || at(get, seq!["index.html"@]) ==> {
                &&& w == c && r.status == 200
                &&& r.content_type == "text/html; charset=utf-8"@ && r.body == console::UI_HTML@
            }
            &&& at(get, seq![api, "cluster"@]) ==> w == c && r == console::json_response(200, console::summary_json(c))
            &&& at(get, seq![api, "pools"@]) ==> w == c && r == console::pool_list(c)
            &&& at(post, seq![api, "pools"@]) ==> (w, r) == console::create_pool(c, body)
            &&& at(get, seq![api, "tenants"@]) ==> w == c && r == console::tenant_list(c)
            &&& at(post, seq![api, "tenants"@]) ==> (w, r) == console::create_tenant(c, body)
            &&& at(get, seq![api, "tenants"@, id]) ==> w == c && r == console::tenant_detail(c, id)
            &&& at("DELETE"@, seq![api, "tenants"@, id]) ==> (w, r) == console::delete_tenant(c, id)
            &&& at(post, seq![api, "tenants"@, id, "objects"@]) ==> (w, r) == console::put_objects(c, id, body)
            &&& at(post, seq![api, "tenants"@, id, "quota"@]) ==> (w, r) == console::set_scope_quota(c, id, body)
            &&& at(post, seq![api, "tick"@]) ==> (w, r) == console::ticked(c, console::query_part(path))
        }),
{
    lemma_words_differ();
}

/// The words of the table are all different.
proof fn lemma_words_differ()
    ensures
        "GET"@ != "POST"@ && "GET"@ != "DELETE"@ && "POST"@ != "DELETE"@,
        "cluster"@ != "pools"@ && "cluster"@ != "tenants"@ && "cluster"@ != "tick"@,
        "pools"@ != "tenants"@ && "pools"@ != "tick"@ && "tenants"@ != "tick"@,
        "objects"@ != "quota"@,
{
    reveal_strlit("GET");
    reveal_strlit("POST");
    reveal_strlit("DELETE");
    reveal_strlit("cluster");
    reveal_strlit("pools");
    reveal_strlit("tenants");
    reveal_strlit("tick");
    reveal_strlit("objects");
    reveal_strlit("quota");
    assert("GET"@.len() == 3 && "POST"@.len() == 4 && "DELETE"@.len() == 6);
    assert("cluster"@[0] == 'c' && "tenants"@[0] == 't' && "pools"@[0] == 'p' && "tick"@.len() == 4);
    assert("tenants"@.len() == 7 && "objects"@.len() == 7 && "quota"@.len() == 5);
}

/// Any other request leads nowhere and is told so, with its method and its path.
pub proof fn law_other_requests_lead_nowhere(c: ClusterView, method: Seq<char>, path: Seq<char>, body: Seq<char>)
    ensures
        ({
            let parts = console::parts_from(console::path_part(path), 0);
            let n = parts.len();
            let (get, post) = (method == "GET"@, method == "POST"@);
            let api = n >= 2 && parts[0] == "api"@;
            let tenants = api && parts[1] == "tenants"@;
            let leads = {
                ||| get && n == 0
                ||| get && n == 1 && parts[0] == "index.html"@
                ||| get && n == 2 && api && (parts[1] == "cluster"@ || parts[1] == "pools"@ || tenants)
                ||| post && n == 2 && api && (parts[1] == "pools"@ || tenants || parts[1] == "tick"@)
                ||| (get || method == "DELETE"@) && n == 3 && tenants
                ||| post && n == 4 && tenants && (parts[3] == "objects"@ || parts[3] == "quota"@)
            };
            !leads ==> console::handled(c, method, path, body) == (
                c,
                console::failure(404, "no route: "@ + method + " "@ + console::path_part(path)),
            )
        }),
{
}

/// The path ends where the query begins: at the first question mark, which belongs to
/// neither.
pub proof fn law_the_query_comes_after_the_mark(path: Seq<char>, query: Seq<char>)
    requires
        forall|i: int| 0 <= i < path.len() ==> (#[trigger] path[i]) != '?',
    ensures
        console::path_part(path) == path && console::query_part(path) == Seq::<char>::empty(),
        console::path_part(path + seq!['?'] + query) == path,
        console::query_part(path + seq!['?'] + query) == query,
{
    let other = |c: char| c != '?';
    let n = path.len() as int;
    assert forall|i: int| 0 <= i < n implies other(#[trigger] path[i]) by {
    }
    lemma_run_ends_there(path, 0, n, other);
    assert(path.take(n) =~= path);
    let s = path + seq!['?'] + query;
    assert forall|i: int| 0 <= i < n implies other(#[trigger] s[i]) by {
        assert(s[i] == path[i]);
    }
    assert(s[n] == '?');
    lemma_run_ends_there(s, 0, n, other);
    assert(s.take(n) =~= path);
    assert(s.skip(n + 1) =~= query);
}

/// A run goes as far as its characters do.
proof fn lemma_run_ends_there(s: Seq<char>, i: int, j: int, those: spec_fn(char) -> bool)
    requires
        0 <= i <= j <= s.len(),
        forall|k: int| i <= k < j ==> those(#[trigger] s[k]),
        j < s.len() ==> !those(s[j]),
    ensures
        text::past(s, i, those) == j,
    decreases j - i,
{
    if i < j {
        assert(those(s[i]));
        lemma_run_ends_there(s, i + 1, j, those);
    }
}

/// The parts of a path are what stands between slashes, however many slashes there are:
/// after slashes and a part comes what the rest of the path has.
pub proof fn law_parts_stand_between_slashes(s: Seq<char>, i: int, start: int, end: int)
    requires
        0 <= i <= start < end <= s.len(),
        forall|k: int| i <= k < start ==> (#[trigger] s[k]) == '/',
        forall|k: int| start <= k < end ==> (#[trigger] s[k]) != '/',
        end < s.len() ==> s[end] == '/',
    ensures
        console::parts_from(s, i) == seq![s.subrange(start, end)] + console::parts_from(s, end),
{
    lemma_run_ends_there(s, i, start, |c: char| c == '/');
    lemma_run_ends_there(s, start, end, |c: char| c != '/');
}

/// And where only slashes are left there are no more parts.
pub proof fn law_slashes_alone_are_no_parts(s: Seq<char>, i: int)
    requires
        0 <= i <= s.len(),
        forall|k: int| i <= k < s.len() ==> (#[trigger] s[k]) == '/',
    ensures
        console::parts_from(s, i) == Seq::<Seq<char>>::empty(),
{
    lemma_run_ends_there(s, i, s.len() as int, |c: char| c == '/');
    lemma_run_ends_there(s, s.len() as int, s.len() as int, |c: char| c != '/');
}

/// What errors are answered with: too many requests for a limit, insufficient storage for
/// quota and space, not found for a tenant, a bad request for what is invalid, and an error
/// of the server for anything else; each with its message.
pub proof fn law_statuses_of_errors(what: Seq<char>, media: MediaClass, tenant: TenantId, bucket: BucketId)
    ensures
        console::error_view(ErrorView::Throttled { dimension: what }) == console::failure(429, "throttled on "@ + what),
        console::error_view(ErrorView::QuotaExceeded { scope: what }) == console::failure(507, "quota exceeded: "@ + what),
        console::error_view(ErrorView::NoSpace { media }).status == 507,
        console::error_view(ErrorView::UnknownTenant(tenant)) == console::failure(
            404,
            "unknown tenant "@ + text::decimal(tenant.0 as nat),
        ),
        console::error_view(ErrorView::Invalid(what)) == console::failure(400, "invalid: "@ + what),
        console::error_view(ErrorView::Fenced { bucket }).status == 500,
        console::error_view(ErrorView::BucketUnavailable(bucket)).status == 500,
{
}

/// Answers are JSON: what was asked for, or an object with one field that says what is
/// wrong.
pub proof fn law_answers_are_json(status: u16, j: JsonView, what: Seq<char>)
    ensures
        ({
            let (a, b) = (console::json_response(status, j), console::failure(status, what));
            &&& a.status == status && a.content_type == "application/json"@ && a.body == json::rendered(j)
            &&& b.status == status && b.content_type == "application/json"@
            &&& b.body == json::rendered(JsonView::Obj(seq![("error"@, JsonView::Str(what))]))
        }),
{
}

/// The media classes have names, and all but the one outside the cluster can be asked for
/// by them; two also by a short name.
pub proof fn law_media_have_names(m: MediaClass)
    ensures
        m != MediaClass::ExternalS3 ==> console::media_named(console::media_text(m)) == Some(m),
        console::media_named(console::media_text(MediaClass::ExternalS3)) is None,
        console::media_text(MediaClass::TlcNvme) == "tlc-nvme"@,
        console::media_text(MediaClass::QlcNvme) == "qlc-nvme"@,
        console::media_text(MediaClass::Hdd) == "hdd"@,
        console::media_text(MediaClass::ExternalS3) == "external-s3"@,
        console::media_named("tlc"@) == Some(MediaClass::TlcNvme),
        console::media_named("qlc"@) == Some(MediaClass::QlcNvme),
{
    reveal_strlit("tlc-nvme");
    reveal_strlit("qlc-nvme");
    reveal_strlit("hdd");
    reveal_strlit("external-s3");
    reveal_strlit("tlc");
    reveal_strlit("qlc");
    assert("tlc-nvme"@[0] == 't' && "qlc-nvme"@[0] == 'q' && "hdd"@[0] == 'h' && "external-s3"@[0] == 'e');
    assert("tlc"@[0] == 't' && "qlc"@[0] == 'q');
}

/// Numbers in fields: as many digits as the bound allows; a field that is not there, or is
/// not such a number, gives none.
pub proof fn law_fields_hold_numbers(f: console::FieldsView, name: Seq<char>, n: nat)
    requires
        f.contains_key(name),
        f[name] == text::decimal(n),
    ensures
        n <= u64::MAX ==> console::field64(f, name) == Some(n as u64),
        n > u64::MAX ==> console::field64(f, name) is None,
        n <= u32::MAX ==> console::field32(f, name) == Some(n as u32),
        n > u32::MAX ==> console::field32(f, name) is None,
        console::field64(f.remove(name), name) is None && console::field32(f.remove(name), name) is None,
        console::asked(f, name) == Some(text::decimal(n)),
        console::asked(f.remove(name), name) is None,
        console::asked(f.insert(name, Seq::empty()), name) is None,
{
    text::law_decimals_read_back(n, n);
}

/// What a request for a tenant gets that does not say: no quota, fifty thousand metadata and
/// a hundred thousand data operations and ten gibibytes per tick, twice of which the buckets
/// hold, and shared pools. What it says, it gets.
pub proof fn law_tenants_have_defaults(f: console::FieldsView)
    ensures
        ({
            let q = console::asked_quota(f);
            let s = console::asked_qos(f);
            let (a, b) = (console::field64(f, "metadata_iops"@), console::field64(f, "data_iops"@));
            let d = console::field64(f, "data_bw_bytes"@);
            &&& q.capacity_bytes == console::field64(f, "capacity_bytes"@)
            &&& q.object_count == console::field64(f, "object_count"@)
            &&& s.metadata_iops == (if a is Some { a->0 } else { 50_000 })
            &&& s.data_iops == (if b is Some { b->0 } else { 100_000 })
            &&& s.data_bw_bytes == (if d is Some { d->0 } else { 10_737_418_240 })
            &&& s.burst_multiple == 2
            &&& match console::field32(f, "dedicated_pool"@) {
                Some(p) => console::asked_placement(f) == Placement::DedicatedPool(PoolId(p)),
                None => console::asked_placement(f) == Placement::Shared,
            }
        }),
{
}

/// A tenant is created under the name given, as asked; the answer gives its number and
/// name, or says why not. Without a name there is none.
pub proof fn law_creating_a_tenant(c: ClusterView, body: Seq<char>)
    ensures
        ({
            let f = json::flat_fields(body);
            let (w, r) = console::create_tenant(c, body);
            if f.contains_key("name"@) && f["name"@].len() > 0 {
                let (v, made) = c.create_tenant(
                    f["name"@],
                    console::asked_quota(f),
                    console::asked_qos(f),
                    console::asked_placement(f),
                );
                &&& w == v
                &&& made matches Ok(id) ==> r == console::json_response(
                    201,
                    JsonView::Obj(
                        seq![("id"@, JsonView::Num(id.0 as u64)), ("name"@, JsonView::Str(f["name"@]))],
                    ),
                )
                &&& made matches Err(e) ==> r == console::error_view(e)
            } else {
                w == c && r == console::failure(400, "need name"@)
            }
        }),
{
}

/// A pool is created as asked, empty and idle, for all or for one tenant; a request
/// without number, class or capacity is refused.
pub proof fn law_creating_a_pool(c: ClusterView, body: Seq<char>)
    ensures
        ({
            let f = json::flat_fields(body);
            let (w, r) = console::create_pool(c, body);
            let (id, capacity) = (console::field32(f, "id"@), console::field64(f, "capacity"@));
            let media = console::media_named(f["media"@]);
            let owner = console::field32(f, "dedicated_to"@);
            if id is Some && capacity is Some && f.contains_key("media"@) && media is Some {
                let p = w.placement.pools[PoolId(id->0)];
                &&& w == c.add_pool(p)
                &&& p.id.0 == id->0 && p.media == media->0 && p.capacity == capacity->0 && p.used == 0
                &&& p.load_headroom_permille == 1000
                &&& owner is None ==> p.dedicated_to is None
                &&& owner is Some ==> p.dedicated_to == Some(TenantId(owner->0))
                &&& r == console::json_response(200, JsonView::Obj(seq![("id"@, JsonView::Num(id->0 as u64))]))
            } else {
                w == c && r == console::failure(400, "need id, media(tlc|qlc|hdd), capacity"@)
            }
        }),
{
}

/// What is asked of a tenant by its number: to be shown, deleted, or given a quota for a
/// scope. What is no number is refused, and a quota needs a scope.
pub proof fn law_tenants_are_named_by_number(c: ClusterView, id: Seq<char>, body: Seq<char>, n: nat)
    requires
        id == text::decimal(n),
    ensures
        ({
            let f = json::flat_fields(body);
            let t = TenantId(n as u32);
            let bad = console::failure(400, "bad tenant id"@);
            let scoped = f.contains_key("scope"@) && f["scope"@].len() > 0;
            let (v, deleted) = c.delete_tenant(t);
            let (q, set) = c.quotas.set_scope_limit(t, f["scope"@], console::asked_quota(f));
            if n > u32::MAX {
                &&& console::tenant_detail(c, id) == bad
                &&& console::delete_tenant(c, id) == (c, bad)
                &&& console::set_scope_quota(c, id, body) == (c, bad)
                &&& console::put_objects(c, id, body) == (c, bad)
            } else {
                &&& c.tenants.tenants.contains_key(t) ==> console::tenant_detail(c, id) == console::json_response(
                    200,
                    console::detail_json(c, t, c.tenants.tenants[t].spec),
                )
                &&& console::delete_tenant(c, id).0 == v
                &&& deleted is Ok ==> console::delete_tenant(c, id).1 == console::json_response(
                    200,
                    JsonView::Obj(seq![("deleted"@, JsonView::Num(n as u64))]),
                )
                &&& deleted matches Err(e) ==> console::delete_tenant(c, id).1 == console::error_view(e)
                &&& !scoped ==> console::set_scope_quota(c, id, body) == (c, console::failure(400, "need scope"@))
                &&& scoped ==> console::set_scope_quota(c, id, body).0 == (ClusterView { quotas: q, ..c })
                &&& scoped && set is Ok ==> console::set_scope_quota(c, id, body).1 == console::json_response(
                    200,
                    JsonView::Obj(seq![("scope"@, JsonView::Str(f["scope"@]))]),
                )
                &&& scoped ==> (set matches Err(e) ==> console::set_scope_quota(c, id, body).1 == console::error_view(e))
            }
        }),
{
    text::law_decimals_read_back(n, n);
}

/// What is shown of a cluster: how many tenants, pools and running buckets, what all pools
/// hold and use together, and the extents of the primary tier.
pub proof fn law_the_summary_adds_up(c: ClusterView)
    requires
        c.placement.pools.dom().finite(),
        console::can_sum_up(c),
        c.tenants.tenants.dom().len() <= u32::MAX,
        c.placement.pools.dom().len() <= u32::MAX,
        c.running.dom().len() <= u32::MAX,
    ensures
        ({
            let pools = c.placement.pools;
            let capacity = sums::sum(pools.dom(), |p: PoolId| pools[p].capacity as nat);
            let used = sums::sum(pools.dom(), |p: PoolId| pools[p].used as nat);
            console::summary_json(c) == JsonView::Obj(
                seq![
                    ("tenants"@, JsonView::Num(c.tenants.tenants.dom().len() as u64)),
                    ("pools"@, JsonView::Num(pools.dom().len() as u64)),
                    ("capacity_extents"@, JsonView::Num(capacity as u64)),
                    ("used_extents"@, JsonView::Num(used as u64)),
                    ("tlc_free_extents"@, JsonView::Num(c.extents.free)),
                    ("tlc_metadata_used"@, JsonView::Num(c.extents.meta_used)),
                    ("tlc_data_used"@, JsonView::Num(c.extents.data_used)),
                    ("active_buckets"@, JsonView::Num(c.running.dom().len() as u64)),
                ],
            )
        }),
{
    let pools = c.placement.pools;
    let ids = console::pool_ids(c);
    let lt = sorted_map::key_order::<PoolId>();
    <PoolId as sorted_map::Key>::lemma_order();
    order::lemma_ranking_exists(pools.dom(), lt);
    order::lemma_ranking_len(ids, pools.dom(), lt);
    lemma_pools_add_up(pools, ids, ids.len());
    assert(ids.take(ids.len() as int) =~= ids);
    assert(ids.to_set() =~= pools.dom()) by {
        assert forall|p: PoolId| ids.to_set().contains(p) <==> pools.dom().contains(p) by {
        }
    }
}

/// The sums over a listing without repetition are those over the set.
proof fn lemma_pools_add_up(pools: Map<PoolId, PoolState>, ids: Seq<PoolId>, n: nat)
    requires
        ids.no_duplicates(),
        n <= ids.len(),
    ensures
        ({
            let set = ids.take(n as int).to_set();
            &&& set.finite()
            &&& console::capacities(pools, ids, n) == sums::sum(set, |p: PoolId| pools[p].capacity as nat)
            &&& console::uses(pools, ids, n) == sums::sum(set, |p: PoolId| pools[p].used as nat)
        }),
    decreases n,
{
    let f = |p: PoolId| pools[p].capacity as nat;
    let g = |p: PoolId| pools[p].used as nat;
    let now = ids.take(n as int);
    vstd::seq_lib::seq_to_set_is_finite(now);
    if n == 0 {
        assert(now.to_set() =~= Set::empty());
    } else {
        let m = (n - 1) as nat;
        lemma_pools_add_up(pools, ids, m);
        let before = ids.take(m as int);
        let x = ids[m as int];
        assert(!before.to_set().contains(x)) by {
            if before.contains(x) {
                let i = choose|i: int| 0 <= i < before.len() && before[i] == x;
                assert(ids[i] == ids[m as int]);
            }
        }
        assert(now.to_set() =~= before.to_set().insert(x)) by {
            assert forall|p: PoolId| now.to_set().contains(p) <==> before.to_set().insert(x).contains(p) by {
                if now.contains(p) {
                    let i = choose|i: int| 0 <= i < now.len() && now[i] == p;
                    if i < m {
                        assert(before[i] == p);
                    }
                }
                if before.contains(p) {
                    let i = choose|i: int| 0 <= i < before.len() && before[i] == p;
                    assert(now[i] == p);
                }
                assert(now[m as int] == x);
            }
        }
        sums::lemma_sum_insert(before.to_set(), f, x);
        sums::lemma_sum_insert(before.to_set(), g, x);
    }
}

/// What is shown of a pool, of a tenant in a list, and of a tenant alone.
pub proof fn law_what_is_shown(c: ClusterView, p: PoolState, t: TenantId)
    requires
        c.tenants.tenants.contains_key(t),
    ensures
        ({
            let e = c.tenants.tenants[t];
            let none = Usage { bytes: 0, objects: 0 };
            let used = if c.quotas.tenants.contains_key(t) { c.quotas.tenants[t].usage } else { none };
            let place = match e.spec.placement {
                Placement::Shared => "shared"@,
                Placement::DedicatedPool(pool) => "dedicated:"@ + text::decimal(pool.0 as nat),
            };
            let key = match e.kek {
                Some(k) => JsonView::Obj(
                    seq![
                        ("key_id"@, JsonView::Str(k.key_id)),
                        ("generation"@, JsonView::Num(k.generation as u64)),
                    ],
                ),
                None => JsonView::Null,
            };
            let owner = match p.dedicated_to {
                Some(x) => JsonView::Num(x.0 as u64),
                None => JsonView::Null,
            };
            let (id, name) = (JsonView::Num(t.0 as u64), JsonView::Str(e.spec.name));
            let (bytes, objects) = (JsonView::Num(used.bytes), JsonView::Num(used.objects));
            &&& console::pool_json(p) == JsonView::Obj(
                seq![
                    ("id"@, JsonView::Num(p.id.0 as u64)),
                    ("media"@, JsonView::Str(console::media_text(p.media))),
                    ("capacity"@, JsonView::Num(p.capacity)),
                    ("used"@, JsonView::Num(p.used)),
                    ("load_headroom_permille"@, JsonView::Num(p.load_headroom_permille as u64)),
                    ("dedicated_to"@, owner),
                ],
            )
            &&& console::tenant_json(c, t, e.spec) == JsonView::Obj(
                seq![
                    ("id"@, id),
                    ("name"@, name),
                    ("placement"@, JsonView::Str(place)),
                    ("used_bytes"@, bytes),
                    ("objects"@, objects),
                ],
            )
            &&& console::detail_json(c, t, e.spec) == JsonView::Obj(
                seq![("id"@, id), ("name"@, name), ("used_bytes"@, bytes), ("objects"@, objects), ("key"@, key)],
            )
        }),
{
    let e = c.tenants.tenants[t];
    let a = console::pool_json(p)->Obj_0;
    let b = console::tenant_json(c, t, e.spec)->Obj_0;
    let d = console::detail_json(c, t, e.spec)->Obj_0;
    let used = console::usage_of(c, t);
    let (id, name) = (JsonView::Num(t.0 as u64), JsonView::Str(e.spec.name));
    let (bytes, objects) = (JsonView::Num(used.bytes), JsonView::Num(used.objects));
    assert(a =~= seq![
        ("id"@, JsonView::Num(p.id.0 as u64)),
        ("media"@, JsonView::Str(console::media_text(p.media))),
        ("capacity"@, JsonView::Num(p.capacity)),
        ("used"@, JsonView::Num(p.used)),
        ("load_headroom_permille"@, JsonView::Num(p.load_headroom_permille as u64)),
        ("dedicated_to"@, a[5].1),
    ]);
    assert(b =~= seq![
        ("id"@, id),
        ("name"@, name),
        ("placement"@, JsonView::Str(console::placement_text(e.spec.placement))),
        ("used_bytes"@, bytes),
        ("objects"@, objects),
    ]);
    assert(d =~= seq![("id"@, id), ("name"@, name), ("used_bytes"@, bytes), ("objects"@, objects), ("key"@, d[4].1)]);
    if e.kek is Some {
        let k = e.kek->0;
        assert(d[4].1->Obj_0 =~= seq![
            ("key_id"@, JsonView::Str(k.key_id)),
            ("generation"@, JsonView::Num(k.generation as u64)),
        ]);
    }
}

/// The lists have every pool, and every tenant, once, by number.
pub proof fn law_lists_have_them_all(c: ClusterView, p: PoolId, t: TenantId)
    requires
        c.placement.pools.dom().finite(),
        c.tenants.consistent(),
    ensures
        exists|items: Seq<PoolId>|
            {
                &&& console::pool_list(c) == console::json_response(
                    200,
                    JsonView::Arr(items.map_values(|id: PoolId| console::pool_json(c.placement.pools[id]))),
                )
                &&& #[trigger] items.contains(p) <==> c.placement.pools.contains_key(p)
                &&& forall|i: int, j: int| 0 <= i < j < items.len() ==> (#[trigger] items[i]).0 < (#[trigger] items[j]).0
            },
        ({
            let items = c.tenants.list();
            &&& console::tenant_list(c) == console::json_response(
                200,
                JsonView::Arr(items.map_values(|e: (TenantId, SpecView)| console::tenant_json(c, e.0, e.1))),
            )
            &&& c.tenants.tenants.contains_key(t) ==> items.contains((t, c.tenants.tenants[t].spec))
            &&& forall|i: int, j: int|
                0 <= i < j < items.len() ==> (#[trigger] items[i]).0.0 < (#[trigger] items[j]).0.0
            &&& items.len() == c.tenants.tenants.dom().len()
        }),
{
    let items = console::pool_ids(c);
    let lt = sorted_map::key_order::<PoolId>();
    <PoolId as sorted_map::Key>::lemma_order();
    order::lemma_ranking_exists(c.placement.pools.dom(), lt);
    assert(c.placement.pools.dom().contains(p) <==> items.contains(p));
    assert forall|i: int, j: int| 0 <= i < j < items.len() implies (#[trigger] items[i]).0 < (#[trigger] items[j]).0 by {
        assert(lt(items[i], items[j]));
    }
    assert(console::pool_list(c) == console::json_response(
        200,
        JsonView::Arr(items.map_values(|id: PoolId| console::pool_json(c.placement.pools[id]))),
    ));
    tenant::law_every_tenant_is_listed(c.tenants, t);
}

/// What a batch of writes asks for that does not say: one object of 4096 bytes, in the
/// scope `default`, named after `obj`; and never more than a hundred thousand.
pub proof fn law_batches_have_defaults(t: TenantId, f: console::FieldsView)
    ensures
        ({
            let b = console::asked_batch(t, f);
            let (n, size) = (console::field32(f, "count"@), console::field64(f, "size_bytes"@));
            &&& b.tenant == t
            &&& n is None ==> b.count == 1
            &&& n is Some && n->0 <= 100_000 ==> b.count == n->0
            &&& n is Some && n->0 > 100_000 ==> b.count == 100_000
            &&& b.size == (if size is Some { size->0 } else { 4096 })
            &&& b.scope == (if f.contains_key("scope"@) { f["scope"@] } else { "default"@ })
            &&& b.prefix == (if f.contains_key("prefix"@) { f["prefix"@] } else { "obj"@ })
        }),
{
}

/// A batch writes one object after the other, numbered on from what the tenant had when it
/// began, and counts how each fared; the first error is kept. Only an unknown tenant ends
/// it.
pub proof fn law_batches_write_one_after_the_other(c: ClusterView, b: console::BatchView, n: nat)
    ensures
        ({
            let (a, z) = (console::put_run(c, b, n), console::put_run(c, b, n + 1));
            let had = if c.quotas.tenants.contains_key(b.tenant) { c.quotas.tenants[b.tenant].usage.objects as nat } else { 0 };
            let (w, r) = a.cluster.put_object(b.tenant, b.scope, b.prefix + "/"@ + text::decimal(had + n), b.size);
            let one = |yes: bool| if yes { 1int } else { 0int };
            &&& console::put_run(c, b, 0).cluster == c && console::put_run(c, b, 0).ok == 0
            &&& console::put_run(c, b, 0).throttled == 0 && console::put_run(c, b, 0).quota_exceeded == 0
            &&& console::put_run(c, b, 0).no_space == 0 && console::put_run(c, b, 0).first_error is None
            &&& console::put_run(c, b, 0).refused is None
            &&& a.refused is Some ==> z == a
            &&& a.refused is None ==> {
                let unknown = r is Err && r->Err_0 is UnknownTenant;
                &&& z.cluster == w
                &&& z.refused == (if unknown { Some(r->Err_0) } else { None })
                &&& z.ok == a.ok + one(r is Ok)
                &&& z.throttled == a.throttled + one(r is Err && r->Err_0 is Throttled)
                &&& z.quota_exceeded == a.quota_exceeded + one(r is Err && r->Err_0 is QuotaExceeded)
                &&& z.no_space == a.no_space + one(r is Err && r->Err_0 is NoSpace)
                &&& z.first_error == (if a.first_error is None && r is Err && !unknown {
                    Some(types::message(r->Err_0))
                } else {
                    a.first_error
                })
            }
        }),
{
}

/// The answer to a batch: how many were asked for and how they fared, the first error, and
/// how many buckets run then.
pub proof fn law_answers_to_batches(c: ClusterView, id: Seq<char>, body: Seq<char>, n: u32)
    requires
        console::number32(id) == Some(n),
    ensures
        ({
            let b = console::asked_batch(TenantId(n), json::flat_fields(body));
            let run = console::put_run(c, b, b.count as nat);
            let (w, r) = console::put_objects(c, id, body);
            &&& w == run.cluster
            &&& run.refused matches Some(e) ==> r == console::error_view(e)
            &&& run.refused is None && run.cluster.running.dom().len() <= u32::MAX ==> r == console::json_response(
                200,
                JsonView::Obj(
                    seq![
                        ("requested"@, JsonView::Num(b.count as u64)),
                        ("ok"@, JsonView::Num(run.ok as u64)),
                        ("throttled"@, JsonView::Num(run.throttled as u64)),
                        ("quota_exceeded"@, JsonView::Num(run.quota_exceeded as u64)),
                        ("no_space"@, JsonView::Num(run.no_space as u64)),
                        (
                            "first_error"@,
                            match run.first_error {
                                Some(m) => JsonView::Str(m),
                                None => JsonView::Null,
                            },
                        ),
                        ("active_buckets"@, JsonView::Num(run.cluster.running.dom().len() as u64)),
                    ],
                ),
            )
        }),
{
}

/// How far time passes: as far as the parameter `n` of the query says, once if it does not,
/// and ten thousand ticks at most; tick by tick.
pub proof fn law_time_passes_as_asked(c: ClusterView, query: Seq<char>, k: nat)
    ensures
        ({
            let n = console::ticks_asked(query);
            let (w, r) = console::ticked(c, query);
            &&& match console::parameter_n(query, 0) {
                Some(v) => match text::number(v, u32::MAX as nat) {
                    Some(m) => n == (if m <= 10_000 { m } else { 10_000 }),
                    None => n == 1,
                },
                None => n == 1,
            }
            &&& console::after_ticks(c, 0) == c
            &&& console::after_ticks(c, k + 1) == console::after_ticks(c, k).tick()
            &&& w == console::after_ticks(c, n as nat)
            &&& r == console::json_response(200, JsonView::Obj(seq![("ticked"@, JsonView::Num(n as u64))]))
        }),
{
}

/// The parameter `n` is what comes after `n=` at the beginning of the query, up to an
/// ampersand; if the query begins otherwise, it is looked for after the next ampersand.
pub proof fn law_parameters_stand_between_ampersands(q: Seq<char>, i: int, end: int)
    requires
        0 <= i <= end <= q.len(),
        forall|k: int| i <= k < end ==> (#[trigger] q[k]) != '&',
        end < q.len() ==> q[end] == '&',
    ensures
        i + 2 <= end && q[i] == 'n' && q[i + 1] == '=' ==> console::parameter_n(q, i) == Some(q.subrange(i + 2, end)),
        !(i + 2 <= end && q[i] == 'n' && q[i + 1] == '=') && end < q.len() ==> console::parameter_n(q, i)
            == console::parameter_n(q, end + 1),
        !(i + 2 <= end && q[i] == 'n' && q[i + 1] == '=') && end == q.len() ==> console::parameter_n(q, i) is None,
{
    lemma_run_ends_there(q, i, end, |c: char| c != '&');
}

/// The cluster for demonstration: its pools, its tenants with their quotas and rates, and
/// its objects, each written after the one before.
pub proof fn law_the_demonstration(n: nat)
    ensures
        ({
            let c = console::demo_cluster();
            let pool = |id: u32, media: MediaClass, capacity: u64, used: u64|
                c.placement.pools.contains_key(PoolId(id)) && c.placement.pools[PoolId(id)] == (PoolState {
                    id: PoolId(id),
                    media,
                    capacity,
                    used,
                    load_headroom_permille: 700,
                    dedicated_to: None,
                });
            let tenant = |id: u32, name: Seq<char>, bytes: u64, objects: u64|
                {
                    let q = c.qos[TenantId(id)];
                    &&& c.tenants.tenants.contains_key(TenantId(id))
                    &&& c.tenants.tenants[TenantId(id)].spec == (SpecView { name, placement: Placement::Shared })
                    &&& c.quotas.tenants[TenantId(id)].limit.capacity_bytes == Some(bytes)
                    &&& c.quotas.tenants[TenantId(id)].limit.object_count == Some(objects)
                    &&& q.meta.rate == 50_000 && q.meta.tokens == 100_000
                    &&& q.data_iops.rate == 100_000 && q.data_iops.tokens == 200_000
                    &&& q.data_bw.rate == 10_737_418_240 && q.data_bw.tokens == 21_474_836_480
                };
            &&& c.bucket_count == 4096 && c.extents.total == 1_000_000 && c.extents.free == 1_000_000
            &&& pool(1, MediaClass::TlcNvme, 500_000, 120_000) && pool(2, MediaClass::TlcNvme, 500_000, 60_000)
            &&& pool(3, MediaClass::QlcNvme, 2_000_000, 400_000) && pool(4, MediaClass::Hdd, 8_000_000, 2_400_000)
            &&& forall|p: PoolId| #[trigger] c.placement.pools.contains_key(p) ==> 1 <= p.0 <= 4
            &&& tenant(1, "acme"@, 0x4_0000_0000_0000, 10_000_000_000)
            &&& tenant(2, "globex"@, 0x2000_0000_0000, 1_000_000_000)
            &&& forall|t: TenantId| #[trigger] c.tenants.tenants.contains_key(t) ==> 1 <= t.0 <= 2
            &&& console::demo(0) == c
            &&& 4096 + n * 17 <= u64::MAX ==> console::demo(n + 1) == console::demo(n).put_object(
                TenantId(1),
                "photos"@,
                "demo/img-"@ + text::decimal(n) + ".jpg"@,
                (4096 + n * 17) as u64,
            ).0
        }),
{
    reveal_strlit("acme");
    reveal_strlit("globex");
    assert("acme"@.len() == 4 && "globex"@.len() == 6);
}

} // verus!
