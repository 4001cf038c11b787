use game_of_life::error::CrudError;
use game_of_life::png::Raster;
use game_of_life::render::Render;
use game_of_life::state::State;
use game_of_life::svg::{assemble, content_of, SvgOutput, SvgRenderer};

fn board(rows: &[&[u8]]) -> State {
    State::from_rows(rows.iter().map(|r| r.to_vec()).collect()).unwrap()
}

fn expected_state(rows: &[&[u8]], scale: usize) -> String {
    let mut svg = String::new();
    svg.push_str("\n\t\t<g>");
    for (i, row) in rows.iter().enumerate() {
        for (j, cell) in row.iter().enumerate() {
            svg.push_str(&format!(
                "\n\t\t\t<rect x=\"{}\" y=\"{}\" width=\"{}\" height=\"{}\" fill=\"{}\" />",
                j * scale,
                i * scale,
                scale,
                scale,
                if *cell == 1 { "white" } else { "black" }
            ));
        }
    }
    svg.push_str("\n\t\t</g>");
    svg
}

fn expected_animation(
    states: &[String],
    width: usize,
    height: usize,
    scale: usize,
    start: usize,
    duration: usize,
) -> String {
    let mut frames = String::new();
    for (i, state) in states.iter().enumerate() {
        frames.push_str(&format!(
            "\n\t<g opacity=\"{}\">\n\t\t<animate attributeName=\"opacity\" from=\"0\" to=\"1\" begin=\"{}ms\" dur=\"{}ms\" fill=\"freeze\" />",
            1 - std::cmp::min(i, 1),
            start + (i * duration),
            duration
        ));
        if i < states.len() - 1 {
            frames.push_str(&format!(
                "\n\t\t<animate attributeName=\"opacity\" from=\"1\" to=\"0\" begin=\"{}ms\" dur=\"{}ms\" fill=\"freeze\" />",
                start + ((i + 1) * duration),
                duration
            ));
        }
        frames.push_str(&format!("{}\n\t</g>", state));
    }
    format!(
        "<svg xmlns=\"http://www.w3.org/2000/svg\" width=\"{}\" height=\"{}\">{}\n</svg>",
        width * scale,
        height * scale,
        frames
    )
}

fn markup_of(render: Render) -> String {
    match render {
        Render::TxtState(markup) => markup,
        Render::PngState(_) => panic!("markup expected"),
    }
}

#[test]
fn one_cell_is_one_square() {
    let markup = markup_of((SvgRenderer {}).gen_state(&board(&[&[1]]), 4));
    assert_eq!(
        markup,
        "\n\t\t<g>\n\t\t\t<rect x=\"0\" y=\"0\" width=\"4\" height=\"4\" fill=\"white\" />\n\t\t</g>"
    );
}

#[test]
fn squares_are_placed_by_column_and_row() {
    let rows: [&[u8]; 3] = [&[0, 1, 0], &[1, 1, 0], &[0, 0, 1]];
    for scale in [0usize, 1, 4, 10].iter() {
        let markup = markup_of((SvgRenderer {}).gen_state(&board(&rows), *scale));
        assert_eq!(markup, expected_state(&rows, *scale));
    }
    let markup = markup_of((SvgRenderer {}).gen_state(&board(&rows), 4));
    assert!(markup.contains("<rect x=\"8\" y=\"4\" width=\"4\" height=\"4\" fill=\"black\" />"));
    assert!(markup.contains("<rect x=\"4\" y=\"0\" width=\"4\" height=\"4\" fill=\"white\" />"));
}

#[test]
fn huge_scale_does_not_overflow() {
    let markup = markup_of((SvgRenderer {}).gen_state(&board(&[&[0, 1, 0]]), usize::MAX));
    let far = (usize::MAX as u128) * 2;
    assert!(markup.contains(&format!("<rect x=\"{}\" y=\"0\"", far)));
}

#[test]
fn frames_follow_each_other() {
    let states = vec!["<a/>".to_string(), "<b/>".to_string(), "<c/>".to_string()];
    let svg = assemble(&states, 240, 32, 4, 500, 300);
    assert_eq!(svg, expected_animation(&states, 240, 32, 4, 500, 300));
    assert!(svg.starts_with("<svg xmlns=\"http://www.w3.org/2000/svg\" width=\"960\" height=\"128\">"));
    assert!(svg.contains("<g opacity=\"1\">\n\t\t<animate attributeName=\"opacity\" from=\"0\" to=\"1\" begin=\"500ms\" dur=\"300ms\""));
    assert!(svg.contains("from=\"1\" to=\"0\" begin=\"800ms\""));
    assert!(svg.contains("<g opacity=\"0\">\n\t\t<animate attributeName=\"opacity\" from=\"0\" to=\"1\" begin=\"800ms\""));
    assert!(svg.contains("from=\"1\" to=\"0\" begin=\"1100ms\""));
    assert!(svg.contains("from=\"0\" to=\"1\" begin=\"1100ms\""));
    assert!(!svg.contains("from=\"1\" to=\"0\" begin=\"1400ms\""));
    assert!(svg.find("<a/>").unwrap() < svg.find("<b/>").unwrap());
    assert!(svg.find("<b/>").unwrap() < svg.find("<c/>").unwrap());
}

#[test]
fn last_frame_never_vanishes() {
    let states = vec!["<only/>".to_string()];
    let svg = assemble(&states, 2, 2, 1, 0, 10);
    assert_eq!(svg, expected_animation(&states, 2, 2, 1, 0, 10));
    assert!(!svg.contains("from=\"1\" to=\"0\""));
}

#[test]
fn animation_of_nothing_is_an_empty_canvas() {
    let svg = assemble(&vec![], 3, 2, 5, 500, 300);
    assert_eq!(svg, "<svg xmlns=\"http://www.w3.org/2000/svg\" width=\"15\" height=\"10\">\n</svg>");
}

#[test]
fn output_assembles_fragments_in_order() {
    let rows_a: [&[u8]; 2] = [&[1, 0], &[0, 1]];
    let rows_b: [&[u8]; 2] = [&[0, 1], &[1, 0]];
    let renders = vec![
        (SvgRenderer {}).gen_state(&board(&rows_a), 4),
        (SvgRenderer {}).gen_state(&board(&rows_b), 4),
    ];
    let svg = (SvgOutput {}).render(&renders, 2, 2, 4, 500, 300).unwrap();
    let states = vec![expected_state(&rows_a, 4), expected_state(&rows_b, 4)];
    assert_eq!(svg, expected_animation(&states, 2, 2, 4, 500, 300));
}

#[test]
fn output_shows_text_as_it_is() {
    assert_eq!(content_of(&Render::TxtState("<x/>".to_string())).unwrap(), "<x/>");
}

#[test]
fn output_refuses_a_raster_that_is_none() {
    let broken = Render::PngState(Raster { width: 2, height: 2, pixels: vec![0; 5] });
    assert_eq!(content_of(&broken), Err(CrudError::EncodingFailed));
    let empty = Render::PngState(Raster { width: 0, height: 0, pixels: vec![] });
    assert_eq!(content_of(&empty), Err(CrudError::EncodingFailed));
    let renders = vec![Render::TxtState("<x/>".to_string()), broken];
    assert_eq!((SvgOutput {}).render(&renders, 2, 2, 4, 500, 300), Err(CrudError::EncodingFailed));
}
