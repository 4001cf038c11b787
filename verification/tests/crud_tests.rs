use game_of_life::config::Config;
use game_of_life::codec::{Output, Reader, Renderer, Writer};
use game_of_life::crud::{Crud, Ext, RenderExt};
use game_of_life::plan::WritePlan;
use game_of_life::error::CrudError;
use game_of_life::grid::Grid;
use game_of_life::png::Raster;
use game_of_life::render::Render;
use game_of_life::snapshot::SnapshotFile;
use game_of_life::state::State;
use game_of_life::txt::{TxtReader, TxtWriter};
use game_of_life::png::{PngReader, PngWriter};
use std::collections::BTreeMap;

fn board(rows: &[&[u8]]) -> State {
    State::from_rows(rows.iter().map(|r| r.to_vec()).collect()).unwrap()
}

fn config(width: usize, height: usize) -> Config {
    Config {
        width,
        height,
        updates_per_run: 4,
        populate_chance: 20,
        cell_scale: 4,
        frame_duration_ms: 300,
        start_delay_ms: 500,
    }
}

fn three_generations() -> Vec<State> {
    vec![
        board(&[&[1, 0, 0], &[0, 1, 0]]),
        board(&[&[0, 1, 0], &[0, 1, 1]]),
        board(&[&[1, 1, 1], &[0, 0, 0]]),
    ]
}

fn carry_out(directory: &mut BTreeMap<String, Vec<u8>>, plan: &WritePlan) {
    for name in plan.remove.iter() {
        directory.remove(name);
    }
    for file in plan.files.iter() {
        directory.insert(file.name.clone(), file.contents.clone());
    }
}

fn listing(directory: &BTreeMap<String, Vec<u8>>) -> Vec<String> {
    directory.keys().cloned().collect()
}

fn files_of(directory: &BTreeMap<String, Vec<u8>>) -> Vec<SnapshotFile> {
    // Handed over last name first: the order of the names must not depend on it.
    directory
        .iter()
        .rev()
        .map(|(name, contents)| SnapshotFile { name: name.clone(), contents: contents.clone() })
        .collect()
}

#[test]
fn formats_and_what_they_can_do() {
    assert!(matches!(Ext::TXT.get_reader(), Ok(Reader::Txt(_))));
    assert!(matches!(Ext::PNG.get_reader(), Ok(Reader::Png(_))));
    assert!(matches!(Ext::TXT.get_writer(), Ok(Writer::Txt(_))));
    assert!(matches!(Ext::PNG.get_writer(), Ok(Writer::Png(_))));
    assert!(matches!(Ext::SVG.get_renderer(), Ok(Renderer::Svg(_))));
    assert!(matches!(Ext::PNG.get_renderer(), Ok(Renderer::Png(_))));
    assert!(matches!(Ext::SVG.get_outputer(), Ok(Output::Svg(_))));
    assert!(matches!(RenderExt::SVG.get_renderer(), Renderer::Svg(_)));
    assert!(matches!(RenderExt::SVG.output(), Output::Svg(_)));
}

#[test]
fn formats_and_what_they_cannot_do() {
    let no = |format, capability| CrudError::UnsupportedFormat { format, capability };
    assert_eq!(Ext::SVG.get_reader().unwrap_err(), no("SVG", "reader"));
    assert_eq!(Ext::SVG.get_writer().unwrap_err(), no("SVG", "writer"));
    assert_eq!(Ext::TXT.get_renderer().unwrap_err(), no("TXT", "renderer"));
    assert_eq!(Ext::TXT.get_outputer().unwrap_err(), no("TXT", "output"));
    assert_eq!(Ext::PNG.get_outputer().unwrap_err(), no("PNG", "output"));
}

#[test]
fn errors_in_words() {
    let e = CrudError::CapabilityMismatch { class: "TxtWriter", expected: "TxtState" };
    assert_eq!(e.message(), "TxtWriter Error: Invalid Render variant (TxtState), expected TxtState");
    let e = CrudError::UnsupportedFormat { format: "SVG", capability: "reader" };
    assert_eq!(e.message(), "SVG Error: no reader for this format");
    assert_eq!(CrudError::UnsupportedImage.message(), "Unsupported image format");
    assert_eq!(CrudError::InvalidText.message(), "stream did not contain valid UTF-8");
    assert_eq!(CrudError::ImageTooLarge.message(), "Image is too large");
    assert_eq!(CrudError::EncodingFailed.message(), "Failed to encode PNG");
}

#[test]
fn fragment_of_the_wrong_kind_is_a_mismatch() {
    let text = Render::TxtState("0\n".to_string());
    let raster = Render::PngState(Raster { width: 1, height: 1, pixels: vec![0, 0, 0] });
    assert_eq!(
        text.error("PngWriter", "PngState"),
        CrudError::CapabilityMismatch { class: "PngWriter", expected: "PngState" }
    );
    let renders = vec![Render::TxtState("1\n".to_string()), raster];
    assert_eq!(
        (TxtWriter {}).write_grid(&renders).unwrap_err(),
        CrudError::CapabilityMismatch { class: "TxtWriter", expected: "TxtState" }
    );
    assert_eq!(
        (PngWriter {}).write_grid(&renders).unwrap_err(),
        CrudError::CapabilityMismatch { class: "PngWriter", expected: "PngState" }
    );
}

#[test]
fn text_fragments_become_numbered_files() {
    let renders = vec![Render::TxtState("1,0\n".to_string()), Render::TxtState("é".to_string())];
    let files = (TxtWriter {}).write_grid(&renders).unwrap();
    assert_eq!(files.len(), 2);
    assert_eq!(files[0].name, "state_00000000.txt");
    assert_eq!(files[0].contents, b"1,0\n");
    assert_eq!(files[1].name, "state_00000001.txt");
    assert_eq!(files[1].contents, "é".as_bytes());
}

#[test]
fn rasters_become_numbered_images() {
    let raster = |shade: u8| Render::PngState(Raster { width: 1, height: 1, pixels: vec![shade; 3] });
    let files = (PngWriter {}).write_grid(&vec![raster(0), raster(255)]).unwrap();
    assert_eq!(files.len(), 2);
    assert_eq!(files[0].name, "state_00000000.png");
    assert_eq!(files[1].name, "state_00000001.png");
    assert_eq!(&files[0].contents[1..4], b"PNG");
    assert_eq!((PngReader {}).read_state(&files[0].contents, 1, 1).unwrap(), board(&[&[0]]));
    assert_eq!((PngReader {}).read_state(&files[1].contents, 1, 1).unwrap(), board(&[&[1]]));
}

#[test]
fn no_file_means_a_fresh_history() {
    let crud = Crud::new(Ext::TXT, Ext::TXT, Ext::SVG, Ext::SVG);
    let grid = crud.read(&vec![], &config(12, 7)).unwrap();
    assert_eq!(grid.len(), 1);
    assert_eq!(grid.current_state().unwrap().width(), 12);
    assert_eq!(grid.current_state().unwrap().height(), 7);
    let grid = (TxtReader {}).read_grid(&vec![], 3, 2, 0).unwrap();
    assert_eq!(grid.get_history(), &vec![State::dead(3, 2)]);
    let grid = (PngReader {}).read_grid(&vec![], 3, 2, 0).unwrap();
    assert_eq!(grid.get_history(), &vec![State::dead(3, 2)]);
}

#[test]
fn history_order_round_trip() {
    let history = three_generations();
    let grid = Grid::new(history.clone());
    let crud = Crud::new(Ext::TXT, Ext::TXT, Ext::SVG, Ext::SVG);
    let plan = crud.write(vec![], &grid).unwrap();
    assert!(plan.remove.is_empty());
    let names: Vec<&str> = plan.files.iter().map(|f| f.name.as_str()).collect();
    assert_eq!(names, vec!["state_00000000.txt", "state_00000001.txt", "state_00000002.txt"]);
    assert_eq!(plan.files[0].contents, b"1,0,0\n0,1,0\n");
    assert_eq!(plan.files[1].contents, b"0,1,0\n0,1,1\n");
    assert_eq!(plan.files[2].contents, b"1,1,1\n0,0,0\n");
    let mut directory = BTreeMap::new();
    carry_out(&mut directory, &plan);
    let back = crud.read(&files_of(&directory), &config(3, 2)).unwrap();
    assert_eq!(back.get_history(), &history);
}

#[test]
fn long_history_round_trip() {
    let mut history = Vec::new();
    for _ in 0..25 {
        history.push(State::random(9, 6, 40));
    }
    let grid = Grid::new(history.clone());
    let crud = Crud::new(Ext::TXT, Ext::TXT, Ext::SVG, Ext::SVG);
    let plan = crud.write(vec![], &grid).unwrap();
    let mut directory = BTreeMap::new();
    carry_out(&mut directory, &plan);
    assert_eq!(directory.len(), 25);
    let back = crud.read(&files_of(&directory), &config(9, 6)).unwrap();
    assert_eq!(back.get_history(), &history);
}

#[test]
fn image_history_round_trip() {
    let history = three_generations();
    let grid = Grid::new(history.clone());
    let crud = Crud::new(Ext::PNG, Ext::PNG, Ext::PNG, Ext::SVG);
    let plan = crud.write(vec![], &grid).unwrap();
    let names: Vec<&str> = plan.files.iter().map(|f| f.name.as_str()).collect();
    assert_eq!(names, vec!["state_00000000.png", "state_00000001.png", "state_00000002.png"]);
    let mut directory = BTreeMap::new();
    carry_out(&mut directory, &plan);
    let back = crud.read(&files_of(&directory), &config(3, 2)).unwrap();
    assert_eq!(back.get_history(), &history);
}

#[test]
fn writing_twice_is_writing_once() {
    let crud = Crud::new(Ext::TXT, Ext::TXT, Ext::SVG, Ext::SVG);
    let mut directory = BTreeMap::new();
    // What an earlier, longer run left behind.
    let long = Grid::new(vec![State::dead(3, 2); 5]);
    let earlier = crud.write(listing(&directory), &long).unwrap();
    carry_out(&mut directory, &earlier);
    directory.insert("notes.txt".to_string(), b"stale".to_vec());
    assert_eq!(directory.len(), 6);

    let grid = Grid::new(three_generations());
    let first = crud.write(listing(&directory), &grid).unwrap();
    assert_eq!(first.remove.len(), 6);
    carry_out(&mut directory, &first);
    let after_first = directory.clone();
    assert_eq!(
        listing(&directory),
        vec!["state_00000000.txt", "state_00000001.txt", "state_00000002.txt"]
    );

    let second = crud.write(listing(&directory), &grid).unwrap();
    assert_eq!(second.remove, listing(&after_first));
    carry_out(&mut directory, &second);
    assert_eq!(directory, after_first);
}

#[test]
fn malformed_snapshot_is_read_with_dead_cells() {
    let files = vec![
        SnapshotFile { name: "state_00000001.txt".to_string(), contents: b"1\nx,1,1,1\n".to_vec() },
        SnapshotFile { name: "state_00000000.txt".to_string(), contents: b"1,1,1\n".to_vec() },
    ];
    let crud = Crud::new(Ext::TXT, Ext::TXT, Ext::SVG, Ext::SVG);
    let grid = crud.read(&files, &config(3, 2)).unwrap();
    assert_eq!(
        grid.get_history(),
        &vec![board(&[&[1, 1, 1], &[0, 0, 0]]), board(&[&[1, 0, 0], &[0, 1, 1]])]
    );
}

#[test]
fn first_unreadable_file_in_name_order_fails_the_read() {
    let files = vec![
        SnapshotFile { name: "b".to_string(), contents: vec![0xff] },
        SnapshotFile { name: "a".to_string(), contents: b"not an image".to_vec() },
    ];
    let txt = Crud::new(Ext::TXT, Ext::TXT, Ext::SVG, Ext::SVG);
    assert_eq!(txt.read(&files, &config(2, 2)).unwrap_err(), CrudError::InvalidText);
    let png = Crud::new(Ext::PNG, Ext::TXT, Ext::SVG, Ext::SVG);
    assert_eq!(png.read(&files, &config(2, 2)).unwrap_err(), CrudError::UnsupportedImage);
}

#[test]
fn pipeline_with_a_format_that_lacks_the_capability() {
    let grid = Grid::new(three_generations());
    let no = |format, capability| CrudError::UnsupportedFormat { format, capability };
    let crud = Crud::new(Ext::SVG, Ext::SVG, Ext::TXT, Ext::PNG);
    assert_eq!(crud.read(&vec![], &config(3, 2)).unwrap_err(), no("SVG", "reader"));
    assert_eq!(crud.write(vec![], &grid).unwrap_err(), no("SVG", "writer"));
    assert_eq!(crud.render(&grid, &config(3, 2)).unwrap_err(), no("PNG", "output"));
    let crud = Crud::new(Ext::TXT, Ext::TXT, Ext::TXT, Ext::SVG);
    assert_eq!(crud.render(&grid, &config(3, 2)).unwrap_err(), no("TXT", "renderer"));
}

#[test]
fn history_is_drawn_in_the_order_of_its_generations() {
    let history = three_generations();
    let grid = Grid::new(history.clone());
    let crud = Crud::new(Ext::TXT, Ext::TXT, Ext::SVG, Ext::SVG);
    let svg = crud.render(&grid, &config(3, 2)).unwrap();
    assert!(svg.starts_with("<svg xmlns=\"http://www.w3.org/2000/svg\" width=\"12\" height=\"8\">"));
    assert!(svg.ends_with("\n\t</g>\n</svg>"));
    assert_eq!(svg.matches("<g opacity=").count(), 3);
    assert_eq!(svg.matches("<rect ").count(), 18);
    assert_eq!(svg.matches("from=\"1\" to=\"0\"").count(), 2);
    let renderer = Ext::SVG.get_renderer().unwrap();
    let mut at = 0;
    for state in history.iter() {
        let fragment = match renderer.gen_state(state, 4).unwrap() {
            Render::TxtState(markup) => markup,
            Render::PngState(_) => panic!("markup expected"),
        };
        let found = svg[at..].find(&fragment).unwrap();
        at += found + fragment.len();
    }
    let pieces = renderer.render_grid(&grid, 4).unwrap();
    assert_eq!(Ext::SVG.get_outputer().unwrap().render(&pieces, &config(3, 2)).unwrap(), svg);
}

#[test]
fn rasters_are_drawn_as_embedded_images() {
    let grid = Grid::new(three_generations());
    let crud = Crud::new(Ext::PNG, Ext::PNG, Ext::PNG, Ext::SVG);
    let svg = crud.render(&grid, &config(3, 2)).unwrap();
    assert_eq!(svg.matches("<image xlink:href=\"data:image/png;charset=utf-8;base64,").count(), 3);
    assert_eq!(svg.matches("\" width=\"3\" height=\"2\"/>").count(), 3);
}

#[test]
fn writer_stores_what_it_renders() {
    let state = board(&[&[1, 0], &[1, 1]]);
    let writer = Ext::TXT.get_writer().unwrap();
    let render = writer.gen_state(&state).unwrap();
    assert_eq!(writer.store(&render).unwrap(), b"1,0\n1,1\n");
    assert_eq!(writer.file_extension(), "txt");
    let writer = Ext::PNG.get_writer().unwrap();
    let render = writer.gen_state(&state).unwrap();
    let png = writer.store(&render).unwrap();
    assert_eq!(writer.file_extension(), "png");
    assert_eq!(Ext::PNG.get_reader().unwrap().read_state(&png, 2, 2).unwrap(), state);
    assert_eq!(Ext::TXT.get_reader().unwrap().read_state(b"1,0\n1,1\n", 2, 2).unwrap(), state);
}

#[test]
fn configuration_needs_a_board() {
    assert!(config(1, 1).is_valid());
    assert!(!config(0, 1).is_valid());
    assert!(!config(1, 0).is_valid());
}
