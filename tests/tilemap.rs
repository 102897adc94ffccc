use cli_tilemap::{entries_within, fill_tokens, layout_text, Bounds, Coord, Formatting, Tile, TileMap};
use crossterm::style::{Print, PrintStyledContent, StyledContent, Stylize};
use crossterm::Command;
use std::io::{stdout, Write};

#[derive(Debug)]
enum Entity {
    Enemy,
    Hero,
    Air,
}

impl Default for Entity {
    fn default() -> Self {
        Entity::Air
    }
}

impl Tile for Entity {
    fn tile(&self) -> StyledContent<&'static str> {
        match self {
            Self::Air => "[-]".dark_grey().bold(),
            Self::Hero => "[&]".green().bold(),
            Self::Enemy => "[@]".red().bold(),
        }
    }
}

fn text(e: Entity) -> String {
    e.tile().to_string()
}

fn strings(v: &[&str]) -> Vec<String> {
    v.iter().map(|s| s.to_string()).collect()
}

/// Writes the map piece by piece as terminal commands, cell by cell.
fn drawn_by_commands(map: &TileMap<Entity>) -> String {
    let f = map.formatting;
    let b = map.bounds();
    let mut out = String::new();
    Print("\n".repeat(f.top_indent as usize)).write_ansi(&mut out).unwrap();
    for y in b.start().y..=b.end().y {
        Print("\n".repeat(f.row_spacing as usize)).write_ansi(&mut out).unwrap();
        Print("\t".repeat(f.left_indent as usize)).write_ansi(&mut out).unwrap();
        for x in b.start().x..=b.end().x {
            Print(" ".repeat(f.tile_spacing as usize)).write_ansi(&mut out).unwrap();
            let tile = match map.get(Coord::new(x, y)) {
                Some(e) => e.tile(),
                None => Entity::default().tile(),
            };
            PrintStyledContent(tile).write_ansi(&mut out).unwrap();
        }
        Print("\n").write_ansi(&mut out).unwrap();
    }
    Print("\n".repeat(f.bottom_indent as usize)).write_ansi(&mut out).unwrap();
    out
}

#[test]
fn draw_tilemap() {
    let mut map: TileMap<Entity> = TileMap::new(5, 5);
    map.insert(Coord::new(3, 3), Entity::Enemy);
    map.insert(Coord::new(1, 0), Entity::Hero);
    stdout().write_all(map.to_string().as_bytes()).expect("should draw!");
}

#[test]
fn default_formatting_values() {
    let f = Formatting::default();
    assert_eq!(f.row_spacing, 1);
    assert_eq!(f.tile_spacing, 1);
    assert_eq!(f.top_indent, 3);
    assert_eq!(f.left_indent, 1);
    assert_eq!(f.bottom_indent, 2);
}

#[test]
fn layout_of_two_by_one_with_default_rules() {
    let out = layout_text(Formatting::default(), 2, 1, &strings(&["[&]", "[-]"]));
    assert_eq!(out, "\n\n\n\n\t [&] [-]\n\n\n");
}

#[test]
fn layout_of_two_rows() {
    let f = Formatting { row_spacing: 2, tile_spacing: 3, top_indent: 0, left_indent: 2, bottom_indent: 1 };
    let out = layout_text(f, 2, 2, &strings(&["a", "b", "c", "d"]));
    assert_eq!(out, "\n\n\t\t   a   b\n\n\n\t\t   c   d\n\n");
}

#[test]
fn two_by_one_scenario() {
    let mut map: TileMap<Entity> = TileMap::new(2, 1);
    map.insert(Coord::new(0, 0), Entity::Hero);
    let expected = format!("\n\n\n\n\t {} {}\n\n\n", text(Entity::Hero), text(Entity::Air));
    assert_eq!(map.to_string(), expected);
}

#[test]
fn string_matches_drawing_by_commands() {
    let mut map: TileMap<Entity> = TileMap::new(4, 3);
    map.insert(Coord::new(3, 2), Entity::Enemy);
    map.insert(Coord::new(0, 1), Entity::Hero);
    map.formatting.row_spacing = 2;
    map.formatting.tile_spacing = 4;
    assert_eq!(map.to_string(), drawn_by_commands(&map));
}

#[test]
fn empty_map_shows_default_everywhere() {
    let map: TileMap<Entity> = TileMap::new(2, 2);
    let air = text(Entity::Air);
    let expected = format!("\n\n\n\n\t {air} {air}\n\n\t {air} {air}\n\n\n");
    assert_eq!(map.to_string(), expected);
}

#[test]
fn inserted_value_shows_at_its_cell() {
    let mut map: TileMap<Entity> = TileMap::new(3, 2);
    map.insert(Coord::new(2, 0), Entity::Enemy);
    let air = text(Entity::Air);
    let enemy = text(Entity::Enemy);
    let expected = format!("\n\n\n\n\t {air} {air} {enemy}\n\n\t {air} {air} {air}\n\n\n");
    assert_eq!(map.to_string(), expected);
}

#[test]
fn one_more_tile_space_adds_one_space_per_tile() {
    let mut map: TileMap<Entity> = TileMap::new(2, 2);
    map.insert(Coord::new(1, 1), Entity::Hero);
    map.formatting.tile_spacing = 2;
    let narrow = map.to_string();
    map.formatting.tile_spacing = 3;
    let wide = map.to_string();
    let air = text(Entity::Air);
    let hero = text(Entity::Hero);
    assert_eq!(narrow, format!("\n\n\n\n\t  {air}  {air}\n\n\t  {air}  {hero}\n\n\n"));
    assert_eq!(wide, format!("\n\n\n\n\t   {air}   {air}\n\n\t   {air}   {hero}\n\n\n"));
}

#[test]
fn bare_single_cell() {
    let f = Formatting { row_spacing: 0, tile_spacing: 0, top_indent: 0, left_indent: 0, bottom_indent: 0 };
    let mut map: TileMap<Entity> = TileMap::formatted(1, 1, f);
    assert_eq!(map.to_string(), format!("{}\n", text(Entity::Air)));
    map.insert(Coord::new(0, 0), Entity::Enemy);
    assert_eq!(map.to_string(), format!("{}\n", text(Entity::Enemy)));
}

#[test]
fn bare_layout_single_token() {
    let f = Formatting { row_spacing: 0, tile_spacing: 0, top_indent: 0, left_indent: 0, bottom_indent: 0 };
    assert_eq!(layout_text(f, 1, 1, &strings(&["[x]"])), "[x]\n");
}

#[test]
fn entries_import_within_bounds() {
    let bounds = Bounds::spanning(Coord::new(2, 2), Coord::new(5, 5));
    let map: TileMap<Entity> =
        TileMap::from_entries(bounds, vec![(Coord::new(2, 3), Entity::Hero), (Coord::new(5, 5), Entity::Enemy)]);
    assert!(matches!(map.get(Coord::new(2, 3)), Some(Entity::Hero)));
    assert!(matches!(map.get(Coord::new(5, 5)), Some(Entity::Enemy)));
    assert!(map.get(Coord::new(3, 3)).is_none());
    assert_eq!(map.formatting, Formatting::default());
}

#[test]
fn outside_coordinate_is_not_in_bounds() {
    let bounds = Bounds::new(5, 5);
    assert!(!bounds.contains(Coord::new(7, 1)));
    assert!(bounds.contains(Coord::new(4, 4)));
}

#[test]
fn bounds_sizes_and_indices() {
    let b = Bounds::spanning(Coord::new(1, 2), Coord::new(3, 6));
    assert_eq!(b.width(), 3);
    assert_eq!(b.depth(), 5);
    assert_eq!(b.cell_count(), 15);
    assert_eq!(b.index(Coord::new(2, 4)), 7);
    let full = Bounds::new(255, 255);
    assert_eq!(full.cell_count(), 65025);
}

#[test]
fn empty_map_over_offset_bounds() {
    let b = Bounds::spanning(Coord::new(3, 3), Coord::new(4, 3));
    let map: TileMap<Entity> = TileMap::from_bounds(b);
    assert_eq!(map.bounds(), b);
    let air = text(Entity::Air);
    assert_eq!(map.to_string(), format!("\n\n\n\n\t {air} {air}\n\n\n"));
}

#[test]
fn insert_and_remove_return_previous_values() {
    let mut map: TileMap<Entity> = TileMap::new(3, 3);
    assert!(map.insert(Coord::new(1, 1), Entity::Hero).is_none());
    assert!(matches!(map.insert(Coord::new(1, 1), Entity::Enemy), Some(Entity::Hero)));
    assert!(matches!(map.remove(Coord::new(1, 1)), Some(Entity::Enemy)));
    assert!(map.remove(Coord::new(1, 1)).is_none());
    assert!(map.remove(Coord::new(9, 9)).is_none());
    assert!(map.get(Coord::new(9, 9)).is_none());
}

#[test]
fn fill_tokens_uses_default_for_empty_cells() {
    let texts = vec![Some("a".to_string()), None, Some("c".to_string()), None];
    let out = fill_tokens(&texts, &"-".to_string());
    assert_eq!(out, strings(&["a", "-", "c", "-"]));
}

#[test]
fn entries_within_checks_every_entry() {
    let bounds = Bounds::new(5, 5);
    let inside = vec![(Coord::new(1, 2), Entity::Hero), (Coord::new(4, 4), Entity::Enemy)];
    assert!(entries_within(&bounds, &inside));
    let outside = vec![(Coord::new(1, 2), Entity::Hero), (Coord::new(7, 1), Entity::Air)];
    assert!(!entries_within(&bounds, &outside));
}

#[test]
fn occupied_lists_cells_in_row_major_order() {
    let mut map: TileMap<Entity> = TileMap::new(4, 4);
    map.insert(Coord::new(3, 3), Entity::Enemy);
    map.insert(Coord::new(1, 0), Entity::Hero);
    map.insert(Coord::new(0, 2), Entity::Hero);
    assert_eq!(map.occupied(), vec![Coord::new(1, 0), Coord::new(0, 2), Coord::new(3, 3)]);
    map.remove(Coord::new(0, 2));
    assert_eq!(map.occupied(), vec![Coord::new(1, 0), Coord::new(3, 3)]);
}

#[test]
fn set_formatting_changes_the_rules_only() {
    let mut map: TileMap<Entity> = TileMap::new(1, 1);
    map.insert(Coord::new(0, 0), Entity::Hero);
    let bare = Formatting { row_spacing: 0, tile_spacing: 0, top_indent: 0, left_indent: 0, bottom_indent: 0 };
    map.set_formatting(bare);
    assert_eq!(map.formatting(), bare);
    assert_eq!(map.to_string(), format!("{}\n", text(Entity::Hero)));
}

#[test]
fn styled_label_carries_escape_codes() {
    let map: TileMap<Entity> = TileMap::formatted(
        1,
        1,
        Formatting { row_spacing: 0, tile_spacing: 0, top_indent: 0, left_indent: 0, bottom_indent: 0 },
    );
    let out = map.to_string();
    assert!(out.contains("[-]"));
    assert_ne!(out, "[-]\n");
}
