//! What a command reports: its result as JSON, its notices, and its exit status.

use crate::geom::fits_i32;
use crate::options::texts;
use crate::place::{placement_views, Placement, PlacementView};
use crate::ring::{row_views, Row, RowDir, RowView};
use crate::text::{concat, decimal, push_count, push_int};
use vstd::prelude::*;
use vstd::string::*;

verus! {

/// The name of a row's direction.
pub open spec fn direction_name(dir: RowDir) -> Seq<char> {
    match dir {
        RowDir::Horizontal => "HORIZONTAL"@,
        RowDir::Vertical => "VERTICAL"@,
    }
}

/// The name of a row's direction.
pub fn def_dir(dir: RowDir) -> (s: &'static str)
    ensures
        s@ == direction_name(dir),
{
    match dir {
        RowDir::Horizontal => "HORIZONTAL",
        RowDir::Vertical => "VERTICAL",
    }
}

/// The pieces one after the other, with a separator between them.
pub open spec fn joined(list: Seq<Seq<char>>, sep: Seq<char>) -> Seq<char>
    decreases list.len(),
{
    if list.len() == 0 {
        Seq::empty()
    } else if list.len() == 1 {
        list[0]
    } else {
        joined(list.drop_last(), sep) + sep + list.last()
    }
}

fn join(list: &Vec<String>, sep: &str) -> (out: String)
    ensures
        out@ == joined(texts(list@), sep@),
{
    let ghost all = texts(list@);
    let mut out = String::new();
    let mut i: usize = 0;
    assert(out@ =~= joined(all.take(0), sep@));
    while i < list.len()
        invariant
            i <= list.len(),
            all == texts(list@),
            out@ == joined(all.take(i as int), sep@),
        decreases list.len() - i,
    {
        assert(all.take(i + 1).drop_last() =~= all.take(i as int));
        assert(all[i as int] == list@[i as int]@);
        if i > 0 {
            out.append(sep);
        }
        let ghost before = out@;
        out.append(list[i].as_str());
        if i == 0 {
            assert(out@ =~= list@[0]@);
        }
        i += 1;
    }
    assert(all.take(all.len() as int) =~= all);
    out
}

/// A row as JSON.
pub open spec fn row_json(r: RowView) -> Seq<char> {
    "    {\"name\": \""@ + r.name + "\", \"site\": \""@ + r.site + "\", \"x\": "@ + decimal(r.x)
        + ", \"y\": "@ + decimal(r.y) + ", \"orient\": \""@ + r.orient.odb_name()
        + "\", \"direction\": \""@ + direction_name(r.dir) + "\", \"sites\": "@ + decimal(r.sites)
        + ", \"pitch\": "@ + decimal(r.pitch) + "}"@
}

fn make_row_json(r: &Row) -> (out: String)
    ensures
        out@ == row_json(r@),
{
    let mut out = concat("    {\"name\": \"", r.name.as_str());
    out.append("\", \"site\": \"");
    out.append(r.site.as_str());
    out.append("\", \"x\": ");
    push_int(&mut out, r.x as i64);
    out.append(", \"y\": ");
    push_int(&mut out, r.y as i64);
    out.append(", \"orient\": \"");
    out.append(r.orient.name());
    out.append("\", \"direction\": \"");
    out.append(def_dir(r.dir));
    out.append("\", \"sites\": ");
    push_int(&mut out, r.sites as i64);
    out.append(", \"pitch\": ");
    push_int(&mut out, r.pitch as i64);
    out.append("}");
    out
}

/// The rows as JSON, each on a line of its own.
pub open spec fn rows_json(rows: Seq<RowView>) -> Seq<char> {
    joined(Seq::new(rows.len(), |i: int| row_json(rows[i])), ",\n"@)
}

/// The report on a ring: refused where a row has no room for a single site.
pub open spec fn ring_report(rows: Seq<RowView>, refused: bool, dbu: int) -> Seq<char> {
    "{\n  \"tool\": \"vyges-pad\",\n  \"status\": \""@ + (if refused {
        "refused"@
    } else {
        "ok"@
    }) + "\",\n  \"dbu_per_micron\": "@ + decimal(dbu) + ",\n  \"rows_total\": "@ + decimal(
        rows.len() as int,
    ) + ",\n  \"rows\": [\n"@ + rows_json(rows) + "\n  ]\n}"@
}

/// The report on a ring.
///
/// `empty` are the rows with no room for a single site: a ring with one is no ring, and the report
/// says so.
pub fn report_json(rows: &[Row], empty: &[&Row], dbu: i32) -> (out: String)
    ensures
        out@ == ring_report(row_views(rows@), empty.len() > 0, dbu as int),
{
    let mut pieces: Vec<String> = Vec::new();
    let mut i: usize = 0;
    while i < rows.len()
        invariant
            i <= rows.len(),
            pieces.len() == i,
            forall|k: int| 0 <= k < i ==> (#[trigger] pieces@[k])@ == row_json(rows@[k]@),
        decreases rows.len() - i,
    {
        pieces.push(make_row_json(&rows[i]));
        i += 1;
    }
    let ghost views = row_views(rows@);
    assert(texts(pieces@) =~= Seq::new(views.len(), |i: int| row_json(views[i])));
    let list = join(&pieces, ",\n");
    let mut out = concat(
        "{\n  \"tool\": \"vyges-pad\",\n  \"status\": \"",
        if empty.len() > 0 { "refused" } else { "ok" },
    );
    out.append("\",\n  \"dbu_per_micron\": ");
    push_int(&mut out, dbu as i64);
    out.append(",\n  \"rows_total\": ");
    push_count(&mut out, rows.len());
    out.append(",\n  \"rows\": [\n");
    out.append(list.as_str());
    out.append("\n  ]\n}");
    out
}

/// A placement as JSON.
pub open spec fn one_placement_json(p: PlacementView) -> Seq<char> {
    "    {\"inst\": \""@ + p.name + "\", \"master\": \""@ + p.master + "\", \"x\": "@ + decimal(p.x)
        + ", \"y\": "@ + decimal(p.y) + ", \"orient\": \""@ + p.orient.odb_name() + "\"}"@
}

fn make_placement_json(p: &Placement) -> (out: String)
    ensures
        out@ == one_placement_json(p@),
{
    let mut out = concat("    {\"inst\": \"", p.name.as_str());
    out.append("\", \"master\": \"");
    out.append(p.master.as_str());
    out.append("\", \"x\": ");
    push_int(&mut out, p.x as i64);
    out.append(", \"y\": ");
    push_int(&mut out, p.y as i64);
    out.append(", \"orient\": \"");
    out.append(p.orient.name());
    out.append("\"}");
    out
}

/// The report on placements: refused where nothing was placed.
pub open spec fn placement_report(
    what: Seq<char>,
    placed: Seq<PlacementView>,
    skipped: Seq<Seq<char>>,
) -> Seq<char> {
    let missed = joined(Seq::new(skipped.len(), |i: int| "\""@ + skipped[i] + "\""@), ", "@);
    let list = joined(Seq::new(placed.len(), |i: int| one_placement_json(placed[i])), ",\n"@);
    "{\n  \"tool\": \"vyges-pad\",\n  \"command\": \""@ + what + "\",\n  \"status\": \""@ + (
    if placed.len() == 0 {
        "refused"@
    } else {
        "ok"@
    }) + "\",\n  \"placed\": "@ + decimal(placed.len() as int) + ",\n  \"skipped\": ["@ + missed
        + "],\n  \"placements\": [\n"@ + list + "\n  ]\n}"@
}

/// The report on placements.
pub fn placement_json(what: &str, placed: &[Placement], skipped: &[String]) -> (out: String)
    ensures
        out@ == placement_report(what@, placement_views(placed@), texts(skipped@)),
{
    let mut pieces: Vec<String> = Vec::new();
    let mut i: usize = 0;
    while i < placed.len()
        invariant
            i <= placed.len(),
            pieces.len() == i,
            forall|k: int| 0 <= k < i ==> (#[trigger] pieces@[k])@ == one_placement_json(placed@[k]@),
        decreases placed.len() - i,
    {
        pieces.push(make_placement_json(&placed[i]));
        i += 1;
    }
    let ghost views = placement_views(placed@);
    assert(texts(pieces@) =~= Seq::new(views.len(), |i: int| one_placement_json(views[i])));
    let list = join(&pieces, ",\n");
    let mut quoted: Vec<String> = Vec::new();
    i = 0;
    while i < skipped.len()
        invariant
            i <= skipped.len(),
            quoted.len() == i,
            forall|k: int|
                0 <= k < i ==> (#[trigger] quoted@[k])@ == "\""@ + skipped@[k]@ + "\""@,
        decreases skipped.len() - i,
    {
        let mut q = concat("\"", skipped[i].as_str());
        q.append("\"");
        quoted.push(q);
        i += 1;
    }
    let ghost names = texts(skipped@);
    assert(texts(quoted@) =~= Seq::new(names.len(), |i: int| "\""@ + names[i] + "\""@));
    let missed = join(&quoted, ", ");
    let mut out = concat("{\n  \"tool\": \"vyges-pad\",\n  \"command\": \"", what);
    out.append("\",\n  \"status\": \"");
    out.append(if placed.len() == 0 { "refused" } else { "ok" });
    out.append("\",\n  \"placed\": ");
    push_count(&mut out, placed.len());
    out.append(",\n  \"skipped\": [");
    out.append(missed.as_str());
    out.append("],\n  \"placements\": [\n");
    out.append(list.as_str());
    out.append("\n  ]\n}");
    out
}

/// How grave a notice is.
#[derive(Debug, Clone, Copy, PartialEq, Eq, Structural)]
pub enum Gravity {
    Info,
    Warn,
    Error,
}

/// A notice about what a command did.
#[derive(Debug)]
pub struct Notice {
    pub gravity: Gravity,
    pub message: String,
    pub code: String,
    pub objects: Vec<String>,
}

/// What a notice is.
pub struct NoticeView {
    pub gravity: Gravity,
    pub message: Seq<char>,
    pub code: Seq<char>,
    pub objects: Seq<Seq<char>>,
}

impl View for Notice {
    type V = NoticeView;

    open spec fn view(&self) -> NoticeView {
        NoticeView {
            gravity: self.gravity,
            message: self.message@,
            code: self.code@,
            objects: texts(self.objects@),
        }
    }
}

pub open spec fn notice_views(list: Seq<Notice>) -> Seq<NoticeView> {
    Seq::new(list.len(), |i: int| list[i]@)
}

/// The rows with no room for a single site, by their places.
pub open spec fn empty_places(rows: Seq<Row>) -> Seq<usize> {
    crate::lists::those(rows.len(), |i: usize| rows[i as int].sites <= 0)
}

/// The rows with no room for a single site: a ring with one is not a ring.
pub fn empty_rows<'a>(rows: &'a [Row]) -> (out: Vec<&'a Row>)
    ensures
        out.len() == empty_places(rows@).len(),
        forall|k: int|
            0 <= k < out.len() ==> *(#[trigger] out@[k]) == rows@[empty_places(rows@)[k] as int],
{
    let ghost cond = |i: usize| rows@[i as int].sites <= 0;
    let mut out: Vec<&'a Row> = Vec::new();
    let mut i: usize = 0;
    while i < rows.len()
        invariant
            i <= rows.len(),
            cond == (|i: usize| rows@[i as int].sites <= 0),
            out.len() == crate::lists::those(i as nat, cond).len(),
            forall|k: int|
                0 <= k < out.len() ==> *(#[trigger] out@[k]) == rows@[crate::lists::those(
                    i as nat,
                    cond,
                )[k] as int],
        decreases rows.len() - i,
    {
        if rows[i].sites <= 0 {
            out.push(&rows[i]);
        }
        i += 1;
    }
    out
}

/// The sites of all rows together.
pub open spec fn total_sites(rows: Seq<Row>) -> int
    decreases rows.len(),
{
    if rows.len() == 0 {
        0
    } else {
        total_sites(rows.drop_last()) + rows.last().sites
    }
}

/// The notice about a row with no room for a single site.
pub open spec fn empty_notice(name: Seq<char>) -> NoticeView {
    NoticeView {
        gravity: Gravity::Error,
        message: "row "@ + name + " has no room for a single site"@,
        code: "PAD-ROW-EMPTY"@,
        objects: seq!["row:"@ + name],
    }
}

/// The notice about the whole ring.
pub open spec fn ring_notice(rows: int, sites: int, refused: bool) -> NoticeView {
    NoticeView {
        gravity: if refused {
            Gravity::Error
        } else {
            Gravity::Info
        },
        message: "IO ring: "@ + decimal(rows) + " row(s), "@ + decimal(sites) + " site(s)"@,
        code: "PAD-RING"@,
        objects: Seq::empty(),
    }
}

/// The notices about a ring: one for each row with no room for a single site, and one for the whole.
pub fn ring_notices(rows: &[Row], empty: &[&Row]) -> (out: Vec<Notice>)
    requires
        fits_i32(total_sites(rows@)),
    ensures
        notice_views(out@) == Seq::new(empty@.len(), |i: int| empty_notice(empty@[i].name@)).push(
            ring_notice(rows@.len() as int, total_sites(rows@), empty@.len() > 0),
        ),
{
    let mut out: Vec<Notice> = Vec::new();
    let mut i: usize = 0;
    while i < empty.len()
        invariant
            i <= empty.len(),
            out.len() == i,
            forall|k: int| 0 <= k < i ==> (#[trigger] out@[k])@ == empty_notice(empty@[k].name@),
        decreases empty.len() - i,
    {
        let name = empty[i].name.as_str();
        let mut message = concat("row ", name);
        message.append(" has no room for a single site");
        let mut objects: Vec<String> = Vec::new();
        objects.push(concat("row:", name));
        assert(texts(objects@) =~= seq!["row:"@ + name@]);
        out.push(
            Notice { gravity: Gravity::Error, message, code: "PAD-ROW-EMPTY".to_owned(), objects },
        );
        i += 1;
    }
    let ghost list = Seq::new(empty@.len(), |i: int| empty_notice(empty@[i].name@));
    assert(notice_views(out@) =~= list);
    let mut sites: i128 = 0;
    i = 0;
    assert(rows@.take(0) =~= Seq::<Row>::empty());
    while i < rows.len()
        invariant
            i <= rows.len(),
            sites == total_sites(rows@.take(i as int)),
            -0x8000_0000 * i <= sites <= 0x8000_0000 * i,
        decreases rows.len() - i,
    {
        assert(rows@.take(i + 1).drop_last() =~= rows@.take(i as int));
        sites = sites + rows[i].sites as i128;
        i += 1;
    }
    assert(rows@.take(rows@.len() as int) =~= rows@);
    let mut message = "IO ring: ".to_owned();
    push_count(&mut message, rows.len());
    message.append(" row(s), ");
    push_int(&mut message, sites as i64);
    message.append(" site(s)");
    let objects: Vec<String> = Vec::new();
    assert(texts(objects@) =~= Seq::empty());
    let gravity = if empty.len() > 0 { Gravity::Error } else { Gravity::Info };
    out.push(Notice { gravity, message, code: "PAD-RING".to_owned(), objects });
    assert(notice_views(out@) =~= list.push(
        ring_notice(rows@.len() as int, total_sites(rows@), empty@.len() > 0),
    ));
    out
}

/// The notice about a cell that was passed over.
pub open spec fn skip_notice(s: Seq<char>) -> NoticeView {
    NoticeView {
        gravity: Gravity::Warn,
        message: "skipping "@ + s,
        code: "PAD-SKIP-OVERLAP"@,
        objects: seq!["inst:"@ + s],
    }
}

/// The notice about everything that was placed.
pub open spec fn placed_notice(what: Seq<char>, placed: int, skipped: int) -> NoticeView {
    NoticeView {
        gravity: Gravity::Info,
        message: what + ": placed "@ + decimal(placed) + ", skipped "@ + decimal(skipped),
        code: "PAD-PLACED"@,
        objects: Seq::empty(),
    }
}

/// The notices about placements: one for each cell passed over, and one for the whole.
pub fn placement_notices(what: &str, placed: &[Placement], skipped: &[String]) -> (out: Vec<Notice>)
    ensures
        notice_views(out@) == Seq::new(skipped@.len(), |i: int| skip_notice(skipped@[i]@)).push(
            placed_notice(what@, placed@.len() as int, skipped@.len() as int),
        ),
{
    let mut out: Vec<Notice> = Vec::new();
    let mut i: usize = 0;
    while i < skipped.len()
        invariant
            i <= skipped.len(),
            out.len() == i,
            forall|k: int| 0 <= k < i ==> (#[trigger] out@[k])@ == skip_notice(skipped@[k]@),
        decreases skipped.len() - i,
    {
        let s = skipped[i].as_str();
        let mut objects: Vec<String> = Vec::new();
        objects.push(concat("inst:", s));
        assert(texts(objects@) =~= seq!["inst:"@ + s@]);
        out.push(
            Notice {
                gravity: Gravity::Warn,
                message: concat("skipping ", s),
                code: "PAD-SKIP-OVERLAP".to_owned(),
                objects,
            },
        );
        i += 1;
    }
    let ghost list = Seq::new(skipped@.len(), |i: int| skip_notice(skipped@[i]@));
    assert(notice_views(out@) =~= list);
    let mut message = concat(what, ": placed ");
    push_count(&mut message, placed.len());
    message.append(", skipped ");
    push_count(&mut message, skipped.len());
    let objects: Vec<String> = Vec::new();
    assert(texts(objects@) =~= Seq::empty());
    out.push(
        Notice { gravity: Gravity::Info, message, code: "PAD-PLACED".to_owned(), objects },
    );
    assert(notice_views(out@) =~= list.push(
        placed_notice(what@, placed@.len() as int, skipped@.len() as int),
    ));
    out
}

/// Whether a ring is written: not in a dry run, and not where a row has no room for a single site.
pub fn writes_ring(dry_run: bool, empty: &[&Row]) -> (b: bool)
    ensures
        b == (!dry_run && empty@.len() == 0),
{
    !dry_run && empty.len() == 0
}

/// The exit status of a command that has run: 1 where it was refused.
pub fn exit_status(refused: bool) -> (code: u8)
    ensures
        code == if refused { 1int } else { 0 },
{
    if refused {
        1
    } else {
        0
    }
}

/// Pieces are joined with a separator between any two of them and nowhere else.
pub proof fn law_joined(list: Seq<Seq<char>>, x: Seq<char>, sep: Seq<char>)
    ensures
        joined(Seq::empty(), sep).len() == 0,
        joined(seq![x], sep) == x,
        list.len() > 0 ==> joined(list.push(x), sep) == joined(list, sep) + sep + x,
{
    assert(list.push(x).drop_last() =~= list);
}

/// The sites of a ring are those of its rows together, and a row counts as empty exactly where it has none.
pub proof fn law_sites_add_up(a: Seq<Row>, b: Seq<Row>, r: Row, t: usize)
    requires
        a.len() <= usize::MAX,
    ensures
        total_sites(a + b) == total_sites(a) + total_sites(b),
        total_sites(seq![r]) == r.sites,
        empty_places(a).contains(t) <==> t < a.len() && a[t as int].sites <= 0,
    decreases b.len(),
{
    crate::lists::lemma_those(a.len(), |i: usize| a[i as int].sites <= 0);
    let one = seq![r];
    assert(one.drop_last() =~= Seq::<Row>::empty());
    assert(total_sites(one) == total_sites(one.drop_last()) + r.sites);
    if b.len() == 0 {
        assert(a + b =~= a);
    } else {
        law_sites_add_up(a, b.drop_last(), r, t);
        assert((a + b).drop_last() =~= a + b.drop_last());
    }
}

} // verus!
