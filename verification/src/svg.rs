//! The vector encoding: every state drawn as a group of squares, and a
//! history as a slideshow of such groups, each shown for a fixed time.

use vstd::prelude::*;

use crate::error::CrudError;
use crate::png::{image_to_svg, raster_markup};
use crate::render::{renders_view, Render, RenderView};
use crate::state::{rows_view, State};
use crate::text::{decimal, push_decimal};

verus! {

/// The square that draws one cell: its corner, its side, and white for a
/// live cell or black for a dead one.
pub open spec fn rect_markup(x: nat, y: nat, scale: nat, cell: u8) -> Seq<char> {
    "\n\t\t\t<rect x=\""@ + decimal(x) + "\" y=\""@ + decimal(y) + "\" width=\""@ + decimal(scale)
        + "\" height=\""@ + decimal(scale) + "\" fill=\""@ + (if cell == 1 {
        "white"@
    } else {
        "black"@
    }) + "\" />"@
}

/// The squares of the cells of row `y`, from the left: the cell in column
/// `x` has its corner at `(x * scale, y * scale)`.
pub open spec fn row_markup(row: Seq<u8>, y: nat, scale: nat) -> Seq<char>
    decreases row.len(),
{
    if row.len() == 0 {
        Seq::empty()
    } else {
        row_markup(row.drop_last(), y, scale) + rect_markup(
            ((row.len() - 1) * scale) as nat,
            y * scale,
            scale,
            row.last(),
        )
    }
}

/// The squares of all rows, from the top.
pub open spec fn rows_markup(cells: Seq<Seq<u8>>, scale: nat) -> Seq<char>
    decreases cells.len(),
{
    if cells.len() == 0 {
        Seq::empty()
    } else {
        rows_markup(cells.drop_last(), scale) + row_markup(
            cells.last(),
            (cells.len() - 1) as nat,
            scale,
        )
    }
}

/// The group that draws a board.
pub open spec fn state_markup(cells: Seq<Seq<u8>>, scale: nat) -> Seq<char> {
    "\n\t\t<g>"@ + rows_markup(cells, scale) + "\n\t\t</g>"@
}

/// When frame `index` becomes visible, in milliseconds.
pub open spec fn appears_at(index: nat, start_delay: nat, frame_duration: nat) -> nat {
    start_delay + index * frame_duration
}

/// When frame `index` becomes invisible, in milliseconds. The last frame
/// never does.
pub open spec fn vanishes_at(index: nat, start_delay: nat, frame_duration: nat) -> nat {
    start_delay + (index + 1) * frame_duration
}

/// The element that fades a frame in or out at a given time.
pub open spec fn animate_markup(from_one: bool, begin: nat, frame_duration: nat) -> Seq<char> {
    (if from_one {
        "\n\t\t<animate attributeName=\"opacity\" from=\"1\" to=\"0\" begin=\""@
    } else {
        "\n\t\t<animate attributeName=\"opacity\" from=\"0\" to=\"1\" begin=\""@
    }) + decimal(begin) + "ms\" dur=\""@ + decimal(frame_duration) + "ms\" fill=\"freeze\" />"@
}

/// Frame `index` of `count`: a group that is opaque from the start only if
/// it is the first, appears at its time, vanishes when the next one appears
/// unless it is the last, and holds the drawing `content`.
pub open spec fn frame_markup(
    index: nat,
    count: nat,
    content: Seq<char>,
    start_delay: nat,
    frame_duration: nat,
) -> Seq<char> {
    "\n\t<g opacity=\""@ + decimal(
        if index == 0 {
            1
        } else {
            0
        },
    ) + "\">"@ + animate_markup(false, appears_at(index, start_delay, frame_duration), frame_duration)
        + (if index + 1 < count {
        animate_markup(true, vanishes_at(index, start_delay, frame_duration), frame_duration)
    } else {
        Seq::empty()
    }) + content + "\n\t</g>"@
}

/// The first `upto` frames of a slideshow of `contents.len()` frames.
pub open spec fn frames_markup(
    contents: Seq<Seq<char>>,
    upto: nat,
    start_delay: nat,
    frame_duration: nat,
) -> Seq<char>
    decreases upto,
{
    if upto == 0 {
        Seq::empty()
    } else {
        frames_markup(contents, (upto - 1) as nat, start_delay, frame_duration) + frame_markup(
            (upto - 1) as nat,
            contents.len(),
            contents[upto - 1],
            start_delay,
            frame_duration,
        )
    }
}

/// The whole drawing: a canvas of the board's size times the scale, and the
/// frames in the order of the history.
pub open spec fn animation_markup(
    contents: Seq<Seq<char>>,
    width: nat,
    height: nat,
    scale: nat,
    start_delay: nat,
    frame_duration: nat,
) -> Seq<char> {
    "<svg xmlns=\"http://www.w3.org/2000/svg\" width=\""@ + decimal(width * scale)
        + "\" height=\""@ + decimal(height * scale) + "\">"@ + frames_markup(
        contents,
        contents.len(),
        start_delay,
        frame_duration,
    ) + "\n</svg>"@
}

/// Every frame but the last vanishes at the moment the next one appears.
pub proof fn lemma_frames_follow(index: nat, start_delay: nat, frame_duration: nat)
    ensures
        vanishes_at(index, start_delay, frame_duration) == appears_at(
            index + 1,
            start_delay,
            frame_duration,
        ),
        appears_at(index, start_delay, frame_duration) + frame_duration == vanishes_at(
            index,
            start_delay,
            frame_duration,
        ),
{
    assert((index + 1) * frame_duration == index * frame_duration + frame_duration)
        by (nonlinear_arith);
}

/// The product of two sizes, which always fits in 128 bits.
fn scaled(count: usize, scale: usize) -> (product: u128)
    ensures
        product == count * scale,
        product <= 0xffff_ffff_ffff_ffff * 0xffff_ffff_ffff_ffff,
{
    assert(count * scale <= 0xffff_ffff_ffff_ffff * 0xffff_ffff_ffff_ffff) by (nonlinear_arith)
        requires
            count <= 0xffff_ffff_ffff_ffff,
            scale <= 0xffff_ffff_ffff_ffff,
    ;
    (count as u128) * (scale as u128)
}

/// A time of the slideshow: the delay and a number of frame durations.
fn time_after(frames: usize, start_delay: usize, frame_duration: usize) -> (time: u128)
    ensures
        time == start_delay + frames * frame_duration,
{
    scaled(frames, frame_duration) + start_delay as u128
}

/// Appends the square of one cell.
fn push_rect(markup: &mut String, x: u128, y: u128, scale: usize, cell: u8)
    ensures
        final(markup)@ == old(markup)@ + rect_markup(x as nat, y as nat, scale as nat, cell),
{
    markup.append("\n\t\t\t<rect x=\"");
    push_decimal(markup, x);
    markup.append("\" y=\"");
    push_decimal(markup, y);
    markup.append("\" width=\"");
    push_decimal(markup, scale as u128);
    markup.append("\" height=\"");
    push_decimal(markup, scale as u128);
    markup.append("\" fill=\"");
    if cell == 1 {
        markup.append("white");
    } else {
        markup.append("black");
    }
    markup.append("\" />");
    assert(markup@ =~= old(markup)@ + rect_markup(x as nat, y as nat, scale as nat, cell));
}

/// Appends the squares of one row.
fn push_row(markup: &mut String, row: &Vec<u8>, y: usize, scale: usize)
    ensures
        final(markup)@ == old(markup)@ + row_markup(row@, y as nat, scale as nat),
{
    let top = scaled(y, scale);
    let mut x: usize = 0;
    assert(row@.take(0) =~= Seq::<u8>::empty());
    assert(markup@ =~= old(markup)@ + row_markup(row@.take(0), y as nat, scale as nat));
    while x < row.len()
        invariant
            0 <= x <= row.len(),
            top == y * scale,
            markup@ == old(markup)@ + row_markup(row@.take(x as int), y as nat, scale as nat),
        decreases row.len() - x,
    {
        let ghost after = row@.take(x + 1);
        proof {
            assert(after.drop_last() =~= row@.take(x as int));
            assert(after.last() == row@[x as int]);
        }
        push_rect(markup, scaled(x, scale), top, scale, row[x]);
        assert(markup@ =~= old(markup)@ + row_markup(after, y as nat, scale as nat));
        x += 1;
    }
    assert(row@.take(row.len() as int) =~= row@);
}

/// The renderer of states as groups of squares.
#[derive(Debug, Clone, Copy)]
pub struct SvgRenderer {}

/// The assembler of rendered states into one animated drawing.
#[derive(Debug, Clone, Copy)]
pub struct SvgOutput {}

impl SvgRenderer {
    /// Draws a state: one square of side `scale` per cell, row by row.
    pub fn gen_state(&self, state: &State, scale: usize) -> (render: Render)
        ensures
            render@ == RenderView::Txt(state_markup(state@, scale as nat)),
    {
        let cells = state.get_cells();
        let mut markup = String::new();
        markup.append("\n\t\t<g>");
        let mut y: usize = 0;
        assert(rows_view(cells@).take(0) =~= Seq::<Seq<u8>>::empty());
        assert(markup@ =~= "\n\t\t<g>"@ + rows_markup(rows_view(cells@).take(0), scale as nat));
        while y < cells.len()
            invariant
                0 <= y <= cells.len(),
                markup@ == "\n\t\t<g>"@ + rows_markup(
                    rows_view(cells@).take(y as int),
                    scale as nat,
                ),
            decreases cells.len() - y,
        {
            let ghost after = rows_view(cells@).take(y + 1);
            proof {
                assert(after.drop_last() =~= rows_view(cells@).take(y as int));
                assert(after.last() == cells@[y as int]@);
            }
            push_row(&mut markup, &cells[y], y, scale);
            assert(markup@ =~= "\n\t\t<g>"@ + rows_markup(after, scale as nat));
            y += 1;
        }
        assert(rows_view(cells@).take(cells.len() as int) =~= rows_view(cells@));
        markup.append("\n\t\t</g>");
        Render::TxtState(markup)
    }
}

/// What a fragment shows inside a drawing, where it can be shown: markup as
/// it is, an image through its PNG encoding.
pub open spec fn fragment_content(render: RenderView) -> Result<Seq<char>, CrudError> {
    match render {
        RenderView::Txt(markup) => Ok(markup),
        RenderView::Png(width, height, pixels) => raster_markup(width, height, pixels),
    }
}

/// The contents of the first `upto` fragments, if all of them can be shown.
pub open spec fn fragment_contents(renders: Seq<RenderView>, upto: nat) -> Result<
    Seq<Seq<char>>,
    CrudError,
>
    decreases upto,
{
    if upto == 0 {
        Ok(Seq::empty())
    } else {
        match fragment_contents(renders, (upto - 1) as nat) {
            Err(e) => Err(e),
            Ok(before) => match fragment_content(renders[upto - 1]) {
                Err(e) => Err(e),
                Ok(content) => Ok(before.push(content)),
            },
        }
    }
}

/// What a fragment shows inside a drawing.
pub fn content_of(render: &Render) -> (r: Result<String, CrudError>)
    ensures
        r is Ok == fragment_content(render@) is Ok,
        r matches Ok(content) ==> Ok::<Seq<char>, CrudError>(content@) == fragment_content(
            render@,
        ),
        r matches Err(e) ==> Err::<Seq<char>, CrudError>(e) == fragment_content(render@),
{
    match render {
        Render::TxtState(markup) => Ok(markup.clone()),
        Render::PngState(raster) => image_to_svg(raster),
    }
}

/// Appends one fading element.
fn push_animate(markup: &mut String, from_one: bool, begin: u128, frame_duration: usize)
    ensures
        final(markup)@ == old(markup)@ + animate_markup(
            from_one,
            begin as nat,
            frame_duration as nat,
        ),
{
    if from_one {
        markup.append("\n\t\t<animate attributeName=\"opacity\" from=\"1\" to=\"0\" begin=\"");
    } else {
        markup.append("\n\t\t<animate attributeName=\"opacity\" from=\"0\" to=\"1\" begin=\"");
    }
    push_decimal(markup, begin);
    markup.append("ms\" dur=\"");
    push_decimal(markup, frame_duration as u128);
    markup.append("ms\" fill=\"freeze\" />");
    assert(markup@ =~= old(markup)@ + animate_markup(
        from_one,
        begin as nat,
        frame_duration as nat,
    ));
}

/// Appends one frame.
fn push_frame(
    markup: &mut String,
    index: usize,
    count: usize,
    content: &str,
    start_delay: usize,
    frame_duration: usize,
)
    requires
        index < count,
    ensures
        final(markup)@ == old(markup)@ + frame_markup(
            index as nat,
            count as nat,
            content@,
            start_delay as nat,
            frame_duration as nat,
        ),
{
    markup.append("\n\t<g opacity=\"");
    push_decimal(
        markup,
        if index == 0 {
            1
        } else {
            0
        },
    );
    markup.append("\">");
    push_animate(markup, false, time_after(index, start_delay, frame_duration), frame_duration);
    if index + 1 < count {
        push_animate(
            markup,
            true,
            time_after(index + 1, start_delay, frame_duration),
            frame_duration,
        );
    }
    markup.append(content);
    markup.append("\n\t</g>");
    assert(markup@ =~= old(markup)@ + frame_markup(
        index as nat,
        count as nat,
        content@,
        start_delay as nat,
        frame_duration as nat,
    ));
}

/// The character sequences of a vector of strings.
pub open spec fn strings_view(strings: Seq<String>) -> Seq<Seq<char>> {
    Seq::new(strings.len(), |i: int| strings[i]@)
}

/// Builds the drawing from the contents of its frames.
pub fn assemble(
    contents: &Vec<String>,
    width: usize,
    height: usize,
    scale: usize,
    start_delay: usize,
    frame_duration: usize,
) -> (markup: String)
    ensures
        markup@ == animation_markup(
            strings_view(contents@),
            width as nat,
            height as nat,
            scale as nat,
            start_delay as nat,
            frame_duration as nat,
        ),
{
    let ghost frames = strings_view(contents@);
    let mut markup = String::new();
    markup.append("<svg xmlns=\"http://www.w3.org/2000/svg\" width=\"");
    push_decimal(&mut markup, scaled(width, scale));
    markup.append("\" height=\"");
    push_decimal(&mut markup, scaled(height, scale));
    markup.append("\">");
    let ghost head = markup@;
    let count = contents.len();
    let mut i: usize = 0;
    assert(markup@ =~= head + frames_markup(frames, 0, start_delay as nat, frame_duration as nat));
    while i < count
        invariant
            0 <= i <= count,
            count == contents@.len(),
            frames == strings_view(contents@),
            markup@ == head + frames_markup(
                frames,
                i as nat,
                start_delay as nat,
                frame_duration as nat,
            ),
        decreases count - i,
    {
        assert(frames[i as int] == contents@[i as int]@);
        push_frame(&mut markup, i, count, contents[i].as_str(), start_delay, frame_duration);
        i += 1;
        assert(markup@ =~= head + frames_markup(
            frames,
            i as nat,
            start_delay as nat,
            frame_duration as nat,
        ));
    }
    markup.append("\n</svg>");
    assert(markup@ =~= animation_markup(
        frames,
        width as nat,
        height as nat,
        scale as nat,
        start_delay as nat,
        frame_duration as nat,
    ));
    markup
}

/// What assembling fragments into a drawing comes to: the drawing of their
/// contents, or the error of the first fragment that cannot be shown.
pub open spec fn rendered(
    renders: Seq<RenderView>,
    width: nat,
    height: nat,
    scale: nat,
    start_delay: nat,
    frame_duration: nat,
) -> Result<Seq<char>, CrudError> {
    match fragment_contents(renders, renders.len()) {
        Err(e) => Err(e),
        Ok(contents) => Ok(
            animation_markup(contents, width, height, scale, start_delay, frame_duration),
        ),
    }
}

impl SvgOutput {
    /// Assembles rendered states, in their order, into one animated
    /// drawing: frame `i` appears at `start_delay + i * frame_duration`
    /// milliseconds and, unless it is the last, vanishes one frame duration
    /// later.
    pub fn render(
        &self,
        renders: &Vec<Render>,
        width: usize,
        height: usize,
        scale: usize,
        start_delay: usize,
        frame_duration: usize,
    ) -> (r: Result<String, CrudError>)
        ensures
            r is Ok == rendered(
                renders_view(renders@),
                width as nat,
                height as nat,
                scale as nat,
                start_delay as nat,
                frame_duration as nat,
            ) is Ok,
            r matches Ok(markup) ==> Ok::<Seq<char>, CrudError>(markup@) == rendered(
                renders_view(renders@),
                width as nat,
                height as nat,
                scale as nat,
                start_delay as nat,
                frame_duration as nat,
            ),
            r matches Err(e) ==> Err::<Seq<char>, CrudError>(e) == rendered(
                renders_view(renders@),
                width as nat,
                height as nat,
                scale as nat,
                start_delay as nat,
                frame_duration as nat,
            ),
    {
        let mut contents: Vec<String> = Vec::new();
        let mut i: usize = 0;
        assert(strings_view(contents@) =~= Seq::<Seq<char>>::empty());
        while i < renders.len()
            invariant
                0 <= i <= renders.len(),
                fragment_contents(renders_view(renders@), i as nat) == Ok::<
                    Seq<Seq<char>>,
                    CrudError,
                >(
                    strings_view(contents@),
                ),
            decreases renders.len() - i,
        {
            let ghost before = strings_view(contents@);
            assert(renders_view(renders@)[i as int] == renders@[i as int]@);
            match content_of(&renders[i]) {
                Ok(content) => {
                    contents.push(content);
                    assert(strings_view(contents@) =~= before.push(content@));
                },
                Err(e) => {
                    proof {
                        assert(renders_view(renders@)[i as int] == renders@[i as int]@);
                        lemma_contents_fail(
                            renders_view(renders@),
                            (i + 1) as nat,
                            renders@.len(),
                        );
                    }
                    return Err(e);
                },
            }
            i += 1;
        }
        Ok(assemble(&contents, width, height, scale, start_delay, frame_duration))
    }
}

/// Once the contents of a prefix fail, those of every longer prefix fail
/// with the same error.
pub proof fn lemma_contents_fail(renders: Seq<RenderView>, failed: nat, upto: nat)
    requires
        failed <= upto,
        fragment_contents(renders, failed) is Err,
    ensures
        fragment_contents(renders, upto) == fragment_contents(renders, failed),
    decreases upto,
{
    if failed < upto {
        lemma_contents_fail(renders, failed, (upto - 1) as nat);
    }
}

} // verus!
