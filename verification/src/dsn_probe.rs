//! The design-file probe's board dump: the design name it derives from the
//! file name, and the line it prints for every item of the board it read.
use vstd::prelude::*;
use crate::geometry::IntBox;
use crate::kinds::{class_name, fixed_state_name, FixedState, ItemKind};
use crate::render::{box_ordinates, push_box_ordinates};
use crate::text::{chars_of, decimal, push_char, push_digits, push_int, push_str, string_of};

verus! {

/// Whether `s` ends with `t`.
pub open spec fn ends_with(s: Seq<char>, t: Seq<char>) -> bool {
    s.len() >= t.len() && s.skip(s.len() - t.len()) == t
}

/// The design name of a file: its name without a trailing `.dsn`, and empty
/// where the name does not end so.
pub open spec fn design_name_of(file_name: Seq<char>) -> Seq<char> {
    if ends_with(file_name, ".dsn"@) {
        file_name.take(file_name.len() - 4)
    } else {
        Seq::empty()
    }
}

/// `design_name(file_name)`: see [`design_name_of`].
pub fn design_name(file_name: &str) -> (out: String)
    ensures
        out@ == design_name_of(file_name@),
{
    let cs = chars_of(file_name);
    let n = cs.len();
    proof {
        reveal_strlit(".dsn");
    }
    if n >= 4 && cs[n - 4] == '.' && cs[n - 3] == 'd' && cs[n - 2] == 's' && cs[n - 1] == 'n' {
        assert(cs@.skip(n - 4) =~= ".dsn"@);
        let mut head: Vec<char> = Vec::new();
        let mut i: usize = 0;
        while i < n - 4
            invariant
                n == cs@.len(),
                n >= 4,
                i <= n - 4,
                head@ == cs@.take(i as int),
            decreases n - 4 - i,
        {
            head.push(cs[i]);
            i = i + 1;
            assert(head@ =~= cs@.take(i as int));
        }
        string_of(&head)
    } else {
        proof {
            if ends_with(cs@, ".dsn"@) {
                let tail = cs@.skip(n - 4);
                assert(tail[0] == '.' && tail[1] == 'd' && tail[2] == 's' && tail[3] == 'n');
            }
        }
        String::new()
    }
}

/// What the probe prints of one item.
pub struct ItemSummary {
    pub kind: ItemKind,
    pub first_layer: usize,
    pub last_layer: usize,
    pub nets: Vec<i32>,
    pub clearance_class: usize,
    pub fixed: FixedState,
    pub component: i64,
    pub bbox: IntBox,
    pub tiles: usize,
}

/// `PolylineTrace`, `Via`, ...: the class name of an item kind.
pub open spec fn kind_text(kind: ItemKind) -> Seq<char> {
    match kind {
        ItemKind::Trace => "PolylineTrace"@,
        ItemKind::Via => "Via"@,
        ItemKind::Pin => "Pin"@,
        ItemKind::ObstacleArea => "ObstacleArea"@,
        ItemKind::ConductionArea => "ConductionArea"@,
        ItemKind::ViaObstacleArea => "ViaObstacleArea"@,
        ItemKind::ComponentObstacleArea => "ComponentObstacleArea"@,
        ItemKind::ComponentOutline => "ComponentOutline"@,
        ItemKind::BoardOutline => "BoardOutline"@,
    }
}

/// `UNFIXED`, `SHOVE_FIXED`, ...: the name of a fixed state.
pub open spec fn fixed_text(state: FixedState) -> Seq<char> {
    match state {
        FixedState::Unfixed => "UNFIXED"@,
        FixedState::ShoveFixed => "SHOVE_FIXED"@,
        FixedState::UserFixed => "USER_FIXED"@,
        FixedState::SystemFixed => "SYSTEM_FIXED"@,
    }
}

/// Every net number followed by a comma.
pub open spec fn nets_text(nets: Seq<i32>) -> Seq<char>
    decreases nets.len(),
{
    if nets.len() == 0 {
        Seq::empty()
    } else {
        nets_text(nets.drop_last()) + decimal(nets.last() as int) + seq![',']
    }
}

/// The description of an item:
/// `<class> layers=<first>..<last> nets=[<n>,...] cl=<class> fixed=<state>
/// cmp=<component> bbox=(<llx>,<lly>,<urx>,<ury>) tiles=<count>`.
pub open spec fn description(item: ItemSummary) -> Seq<char> {
    kind_text(item.kind) + " layers="@ + decimal(item.first_layer as int) + ".."@ + decimal(
        item.last_layer as int,
    ) + " nets=["@ + nets_text(item.nets@) + "] cl="@ + decimal(item.clearance_class as int)
        + " fixed="@ + fixed_text(item.fixed) + " cmp="@ + decimal(item.component as int)
        + " bbox=("@ + box_ordinates(item.bbox, seq![','], seq![',']) + ") tiles="@ + decimal(
        item.tiles as int,
    )
}

/// `describe(item)`: see [`description`].
pub fn describe(item: &ItemSummary) -> (out: String)
    ensures
        out@ == description(*item),
{
    let mut out = String::new();
    let kind = class_name(item.kind);
    push_str(&mut out, kind);
    push_str(&mut out, " layers=");
    push_digits(&mut out, item.first_layer as u64);
    push_str(&mut out, "..");
    push_digits(&mut out, item.last_layer as u64);
    push_str(&mut out, " nets=[");
    let ghost head = out@;
    let mut i: usize = 0;
    while i < item.nets.len()
        invariant
            i <= item.nets@.len(),
            out@ == head + nets_text(item.nets@.take(i as int)),
        decreases item.nets.len() - i,
    {
        assert(item.nets@.take(i + 1).drop_last() =~= item.nets@.take(i as int));
        push_int(&mut out, item.nets[i] as i64);
        push_char(&mut out, ',');
        i = i + 1;
        assert(out@ =~= head + nets_text(item.nets@.take(i as int)));
    }
    assert(item.nets@.take(item.nets@.len() as int) =~= item.nets@);
    push_str(&mut out, "] cl=");
    push_digits(&mut out, item.clearance_class as u64);
    push_str(&mut out, " fixed=");
    let fixed = fixed_state_name(item.fixed);
    push_str(&mut out, fixed);
    push_str(&mut out, " cmp=");
    push_int(&mut out, item.component);
    push_str(&mut out, " bbox=(");
    proof {
        reveal_strlit(",");
    }
    push_box_ordinates(&mut out, &item.bbox, ",", ",");
    push_str(&mut out, ") tiles=");
    push_digits(&mut out, item.tiles as u64);
    assert(out@ =~= description(*item));
    out
}

/// The lines of the item dump for `items` in the order given (the probe
/// lists them by ascending id): `item <id> <description>` each.
pub open spec fn item_lines(items: Seq<(u32, ItemSummary)>) -> Seq<char>
    decreases items.len(),
{
    if items.len() == 0 {
        Seq::empty()
    } else {
        item_lines(items.drop_last()) + "item "@ + decimal(items.last().0 as int) + seq![' ']
            + description(items.last().1) + seq!['\n']
    }
}

/// The warnings, `warning <text>` each.
pub open spec fn warning_lines(warnings: Seq<String>) -> Seq<char>
    decreases warnings.len(),
{
    if warnings.len() == 0 {
        Seq::empty()
    } else {
        warning_lines(warnings.drop_last()) + "warning "@ + warnings.last()@ + seq!['\n']
    }
}

/// The whole board dump: `layers <count>`, the item lines, `itemcount
/// <count>`, then the reader's warnings.
pub open spec fn board_dump_text(
    layer_count: usize,
    items: Seq<(u32, ItemSummary)>,
    warnings: Seq<String>,
) -> Seq<char> {
    "layers "@ + decimal(layer_count as int) + seq!['\n'] + item_lines(items) + "itemcount "@
        + decimal(items.len() as int) + seq!['\n'] + warning_lines(warnings)
}

/// `dump_items(board, warnings)` on the items of the board in the order to
/// print them; see [`board_dump_text`].
pub fn board_dump(layer_count: usize, items: &[(u32, ItemSummary)], warnings: &[String]) -> (out:
    String)
    ensures
        out@ == board_dump_text(layer_count, items@, warnings@),
{
    let mut out = String::new();
    push_str(&mut out, "layers ");
    push_digits(&mut out, layer_count as u64);
    push_char(&mut out, '\n');
    let ghost head = out@;
    let mut i: usize = 0;
    while i < items.len()
        invariant
            i <= items@.len(),
            out@ == head + item_lines(items@.take(i as int)),
        decreases items.len() - i,
    {
        assert(items@.take(i + 1).drop_last() =~= items@.take(i as int));
        let (id, item) = &items[i];
        push_str(&mut out, "item ");
        push_digits(&mut out, *id as u64);
        push_char(&mut out, ' ');
        let line = describe(item);
        push_str(&mut out, line.as_str());
        push_char(&mut out, '\n');
        i = i + 1;
        assert(out@ =~= head + item_lines(items@.take(i as int)));
    }
    assert(items@.take(items@.len() as int) =~= items@);
    push_str(&mut out, "itemcount ");
    push_digits(&mut out, items.len() as u64);
    push_char(&mut out, '\n');
    let ghost middle = out@;
    let mut k: usize = 0;
    while k < warnings.len()
        invariant
            k <= warnings@.len(),
            out@ == middle + warning_lines(warnings@.take(k as int)),
        decreases warnings.len() - k,
    {
        assert(warnings@.take(k + 1).drop_last() =~= warnings@.take(k as int));
        push_str(&mut out, "warning ");
        push_str(&mut out, warnings[k].as_str());
        push_char(&mut out, '\n');
        k = k + 1;
        assert(out@ =~= middle + warning_lines(warnings@.take(k as int)));
    }
    assert(warnings@.take(warnings@.len() as int) =~= warnings@);
    assert(out@ =~= board_dump_text(layer_count, items@, warnings@));
    out
}

} // verus!
