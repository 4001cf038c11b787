//! The capabilities of the formats: reading stored states, storing states,
//! rendering a state as a fragment, and assembling fragments into an
//! animation. Each capability is a closed choice among the formats that
//! have it.

use vstd::prelude::*;
use vstd::string::StrSliceExecFns;
use vstd::utf8::encode_utf8;

use crate::config::Config;
use crate::error::CrudError;
use crate::grid::{history_view, Grid};
use crate::png::{
    image_fits,
    pixels_fill,
    png_encoding,
    png_state,
    state_raster,
    PngReader,
    PngWriter,
};
use crate::render::{renders_view, Render, RenderView};
use crate::seed::is_seeded;
use crate::snapshot::{
    file_view,
    files_view,
    name_of,
    picked,
    snapshot_name,
    sort_by_name,
    sorted_order,
    SnapshotFile,
};
use crate::state::State;
use crate::svg::{rendered, state_markup, SvgOutput, SvgRenderer};
use crate::txt::{board_text, txt_state, TxtReader, TxtWriter};

verus! {

/// A format that reads stored states.
#[derive(Debug)]
pub enum Reader {
    /// Plain text.
    Txt(TxtReader),
    /// Raster images.
    Png(PngReader),
}

/// A format that stores states.
#[derive(Debug)]
pub enum Writer {
    /// Plain text.
    Txt(TxtWriter),
    /// Raster images.
    Png(PngWriter),
}

/// A format that renders one state as a fragment.
#[derive(Debug)]
pub enum Renderer {
    /// Groups of squares.
    Svg(SvgRenderer),
    /// Rasters.
    Png(PngWriter),
}

/// A format that assembles fragments into one animation.
#[derive(Debug)]
pub enum Output {
    /// Vector drawings.
    Svg(SvgOutput),
}

/// What reading the first `upto` of the given files comes to: their states
/// in that order, or the error of the first file that cannot be read.
pub open spec fn decoded_files(
    reader: Reader,
    files: Seq<(Seq<char>, Seq<u8>)>,
    upto: nat,
    width: nat,
    height: nat,
) -> Result<Seq<Seq<Seq<u8>>>, CrudError>
    decreases upto,
{
    if upto == 0 {
        Ok(Seq::empty())
    } else {
        match decoded_files(reader, files, (upto - 1) as nat, width, height) {
            Err(e) => Err(e),
            Ok(before) => match reader.decoded(files[upto - 1].1, width, height) {
                Err(e) => Err(e),
                Ok(board) => Ok(before.push(board)),
            },
        }
    }
}

/// What reading stored files comes to: the states of the files taken in the
/// order of their names, or the first error in that order.
pub open spec fn read_files(
    reader: Reader,
    files: Seq<(Seq<char>, Seq<u8>)>,
    width: nat,
    height: nat,
) -> Result<Seq<Seq<Seq<u8>>>, CrudError> {
    decoded_files(reader, sort_by_name(files), files.len(), width, height)
}

/// Once reading a prefix fails, reading every longer prefix fails alike.
pub proof fn lemma_decoded_files_fail(
    reader: Reader,
    files: Seq<(Seq<char>, Seq<u8>)>,
    failed: nat,
    upto: nat,
    width: nat,
    height: nat,
)
    requires
        failed <= upto,
        decoded_files(reader, files, failed, width, height) is Err,
    ensures
        decoded_files(reader, files, upto, width, height) == decoded_files(
            reader,
            files,
            failed,
            width,
            height,
        ),
    decreases upto,
{
    if failed < upto {
        lemma_decoded_files_fail(reader, files, failed, (upto - 1) as nat, width, height);
    }
}

impl Reader {
    /// What the bytes of one snapshot stand for in this format.
    pub open spec fn decoded(self, bytes: Seq<u8>, width: nat, height: nat) -> Result<
        Seq<Seq<u8>>,
        CrudError,
    > {
        match self {
            Reader::Txt(_) => txt_state(bytes, width, height),
            Reader::Png(_) => png_state(bytes, width, height),
        }
    }

    /// Reads one state of the given size from the bytes of a snapshot.
    pub fn read_state(&self, bytes: &[u8], width: usize, height: usize) -> (r: Result<
        State,
        CrudError,
    >)
        requires
            width > 0,
            height > 0,
        ensures
            r is Ok == self.decoded(bytes@, width as nat, height as nat) is Ok,
            r matches Ok(s) ==> Ok::<Seq<Seq<u8>>, CrudError>(s@) == self.decoded(
                bytes@,
                width as nat,
                height as nat,
            ),
            r matches Err(e) ==> Err::<Seq<Seq<u8>>, CrudError>(e) == self.decoded(
                bytes@,
                width as nat,
                height as nat,
            ),
    {
        match self {
            Reader::Txt(reader) => reader.read_state(bytes, width, height),
            Reader::Png(reader) => reader.read_state(bytes, width, height),
        }
    }

    /// Reads a history from the files of a snapshot directory. The files
    /// are taken in the order of their names, whatever the order in which
    /// they are given. Where there is no file, the history starts afresh
    /// from one state seeded at random.
    pub fn read_grid(
        &self,
        files: &Vec<SnapshotFile>,
        width: usize,
        height: usize,
        chance: usize,
    ) -> (r: Result<Grid, CrudError>)
        requires
            width > 0,
            height > 0,
        ensures
            files@.len() == 0 ==> (r matches Ok(grid) && grid@.len() == 1 && is_seeded(
                grid@[0],
                width as nat,
                height as nat,
                chance,
            )),
            files@.len() > 0 ==> {
                let expected = read_files(
                    *self,
                    files_view(files@),
                    width as nat,
                    height as nat,
                );
                &&& r is Ok == expected is Ok
                &&& r matches Ok(grid) ==> Ok::<Seq<Seq<Seq<u8>>>, CrudError>(grid@) == expected
                &&& r matches Err(e) ==> Err::<Seq<Seq<Seq<u8>>>, CrudError>(e) == expected
            },
    {
        if files.len() == 0 {
            return Ok(Grid::random(width, height, chance));
        }
        let order = sorted_order(files);
        let ghost sorted = sort_by_name(files_view(files@));
        let mut states: Vec<State> = Vec::new();
        let mut k: usize = 0;
        assert(history_view(states@) =~= Seq::<Seq<Seq<u8>>>::empty());
        while k < order.len()
            invariant
                0 <= k <= order.len(),
                width > 0,
                height > 0,
                order@.len() == files@.len(),
                forall|i: int| 0 <= i < order@.len() ==> #[trigger] order@[i] < files@.len(),
                sorted == picked(files@, order@),
                sorted == sort_by_name(files_view(files@)),
                decoded_files(*self, sorted, k as nat, width as nat, height as nat) == Ok::<
                    Seq<Seq<Seq<u8>>>,
                    CrudError,
                >(history_view(states@)),
            decreases order.len() - k,
        {
            let ghost before = history_view(states@);
            let file = &files[order[k]];
            assert(sorted[k as int] == file_view(*file));
            match self.read_state(file.contents.as_slice(), width, height) {
                Ok(state) => {
                    states.push(state);
                    assert(history_view(states@) =~= before.push(state@));
                },
                Err(e) => {
                    proof {
                        assert(decoded_files(
                            *self,
                            sorted,
                            (k + 1) as nat,
                            width as nat,
                            height as nat,
                        ) == Err::<Seq<Seq<Seq<u8>>>, CrudError>(e));
                        lemma_decoded_files_fail(
                            *self,
                            sorted,
                            (k + 1) as nat,
                            files@.len(),
                            width as nat,
                            height as nat,
                        );
                        assert(files_view(files@).len() == files@.len());
                    }
                    return Err(e);
                },
            }
            k += 1;
        }
        Ok(Grid::new(states))
    }
}

/// What storing the first `upto` fragments comes to: one file for each, in
/// their order, or the error of the first fragment that cannot be stored.
pub open spec fn stored_files(writer: Writer, renders: Seq<RenderView>, upto: nat) -> Result<
    Seq<(Seq<char>, Seq<u8>)>,
    CrudError,
>
    decreases upto,
{
    if upto == 0 {
        Ok(Seq::empty())
    } else {
        match stored_files(writer, renders, (upto - 1) as nat) {
            Err(e) => Err(e),
            Ok(before) => match writer.stored(renders[upto - 1]) {
                Err(e) => Err(e),
                Ok(bytes) => Ok(
                    before.push((snapshot_name((upto - 1) as nat, writer.extension()@), bytes)),
                ),
            },
        }
    }
}

/// Once storing a prefix fails, storing every longer prefix fails alike.
pub proof fn lemma_stored_files_fail(
    writer: Writer,
    renders: Seq<RenderView>,
    failed: nat,
    upto: nat,
)
    requires
        failed <= upto,
        stored_files(writer, renders, failed) is Err,
    ensures
        stored_files(writer, renders, upto) == stored_files(writer, renders, failed),
    decreases upto,
{
    if failed < upto {
        lemma_stored_files_fail(writer, renders, failed, (upto - 1) as nat);
    }
}

/// The fragments that a writer makes of the first `upto` states, or the
/// error of the first state that it cannot render.
pub open spec fn written_files(writer: Writer, history: Seq<Seq<Seq<u8>>>, upto: nat) -> Result<
    Seq<(Seq<char>, Seq<u8>)>,
    CrudError,
>
    decreases upto,
{
    if upto == 0 {
        Ok(Seq::empty())
    } else {
        match written_files(writer, history, (upto - 1) as nat) {
            Err(e) => Err(e),
            Ok(before) => match writer.encoded(history[upto - 1]) {
                Err(e) => Err(e),
                Ok(bytes) => Ok(
                    before.push((snapshot_name((upto - 1) as nat, writer.extension()@), bytes)),
                ),
            },
        }
    }
}

/// Once writing a prefix fails, writing every longer prefix fails alike.
pub proof fn lemma_written_files_fail(
    writer: Writer,
    history: Seq<Seq<Seq<u8>>>,
    failed: nat,
    upto: nat,
)
    requires
        failed <= upto,
        written_files(writer, history, failed) is Err,
    ensures
        written_files(writer, history, upto) == written_files(writer, history, failed),
    decreases upto,
{
    if failed < upto {
        lemma_written_files_fail(writer, history, failed, (upto - 1) as nat);
    }
}

impl Writer {
    /// The extension of the files of this format.
    pub open spec fn extension(self) -> &'static str {
        match self {
            Writer::Txt(_) => "txt",
            Writer::Png(_) => "png",
        }
    }

    /// The bytes that store a fragment in this format. A fragment of the
    /// other kind is a mismatch.
    pub open spec fn stored(self, render: RenderView) -> Result<Seq<u8>, CrudError> {
        match self {
            Writer::Txt(_) => match render {
                RenderView::Txt(text) => Ok(encode_utf8(text)),
                RenderView::Png(_, _, _) => Err(
                    CrudError::CapabilityMismatch { class: "TxtWriter", expected: "TxtState" },
                ),
            },
            Writer::Png(_) => match render {
                RenderView::Png(width, height, pixels) => {
                    if !pixels_fill(width, height, pixels, 3) {
                        Err(CrudError::EncodingFailed)
                    } else {
                        match png_encoding(width, height, pixels) {
                            Some(png) => Ok(png),
                            None => Err(CrudError::EncodingFailed),
                        }
                    }
                },
                RenderView::Txt(_) => Err(
                    CrudError::CapabilityMismatch { class: "PngWriter", expected: "PngState" },
                ),
            },
        }
    }

    /// The fragment that this format makes of a state before storing it.
    pub open spec fn fragment(self, cells: Seq<Seq<u8>>) -> RenderView {
        match self {
            Writer::Txt(_) => RenderView::Txt(board_text(cells)),
            Writer::Png(_) => state_raster(cells),
        }
    }

    /// The bytes that store a state in this format.
    pub open spec fn encoded(self, cells: Seq<Seq<u8>>) -> Result<Seq<u8>, CrudError> {
        match self {
            Writer::Txt(_) => Ok(encode_utf8(board_text(cells))),
            Writer::Png(_) => {
                if !image_fits(cells[0].len(), cells.len(), 3) {
                    Err(CrudError::ImageTooLarge)
                } else {
                    self.stored(state_raster(cells))
                }
            },
        }
    }

    /// The extension of the files of this format.
    pub fn file_extension(&self) -> (extension: &'static str)
        ensures
            extension == self.extension(),
    {
        match self {
            Writer::Txt(_) => "txt",
            Writer::Png(_) => "png",
        }
    }

    /// Renders a state as the fragment that this format stores.
    pub fn gen_state(&self, state: &State) -> (r: Result<Render, CrudError>)
        ensures
            r is Err <==> *self is Png && !image_fits(state@[0].len(), state@.len(), 3),
            r matches Ok(render) ==> render@ == self.fragment(state@) && self.stored(render@)
                == self.encoded(state@),
            r matches Err(e) ==> Err::<Seq<u8>, CrudError>(e) == self.encoded(state@),
    {
        match self {
            Writer::Txt(writer) => Ok(writer.gen_state(state)),
            Writer::Png(writer) => writer.gen_state(state),
        }
    }

    /// The bytes that store one fragment.
    pub fn store(&self, render: &Render) -> (r: Result<Vec<u8>, CrudError>)
        ensures
            r is Ok == self.stored(render@) is Ok,
            r matches Ok(bytes) ==> Ok::<Seq<u8>, CrudError>(bytes@) == self.stored(render@),
            r matches Err(e) ==> Err::<Seq<u8>, CrudError>(e) == self.stored(render@),
    {
        match self {
            Writer::Txt(_) => match render {
                Render::TxtState(text) => Ok(text.as_str().as_bytes_vec()),
                Render::PngState(_) => Err(render.error("TxtWriter", "TxtState")),
            },
            Writer::Png(writer) => match render {
                Render::PngState(raster) => writer.encode(raster),
                Render::TxtState(_) => Err(render.error("PngWriter", "PngState")),
            },
        }
    }

    /// Turns fragments into the files of a snapshot directory: fragment
    /// `i` becomes the file named after `i`. A fragment of another kind
    /// than this format's is an error, and no file is made.
    pub fn write_grid(&self, renders: &Vec<Render>) -> (r: Result<Vec<SnapshotFile>, CrudError>)
        ensures
            r is Ok == stored_files(*self, renders_view(renders@), renders@.len()) is Ok,
            r matches Ok(files) ==> Ok::<Seq<(Seq<char>, Seq<u8>)>, CrudError>(files_view(files@))
                == stored_files(*self, renders_view(renders@), renders@.len()),
            r matches Err(e) ==> Err::<Seq<(Seq<char>, Seq<u8>)>, CrudError>(e) == stored_files(
                *self,
                renders_view(renders@),
                renders@.len(),
            ),
    {
        let mut files: Vec<SnapshotFile> = Vec::new();
        let mut i: usize = 0;
        assert(files_view(files@) =~= Seq::empty());
        while i < renders.len()
            invariant
                0 <= i <= renders.len(),
                stored_files(*self, renders_view(renders@), i as nat) == Ok::<
                    Seq<(Seq<char>, Seq<u8>)>,
                    CrudError,
                >(files_view(files@)),
            decreases renders.len() - i,
        {
            let ghost before = files_view(files@);
            assert(renders_view(renders@)[i as int] == renders@[i as int]@);
            match self.store(&renders[i]) {
                Ok(contents) => {
                    let file = SnapshotFile { name: name_of(i, self.file_extension()), contents };
                    let ghost added = file_view(file);
                    files.push(file);
                    assert(files_view(files@) =~= before.push(added));
                },
                Err(e) => {
                    proof {
                        lemma_stored_files_fail(
                            *self,
                            renders_view(renders@),
                            (i + 1) as nat,
                            renders@.len(),
                        );
                    }
                    return Err(e);
                },
            }
            i += 1;
        }
        Ok(files)
    }

    /// Turns a history into the files of a snapshot directory, one file per
    /// generation, named so that the names sort as the generations follow.
    pub fn write_history(&self, grid: &Grid) -> (r: Result<Vec<SnapshotFile>, CrudError>)
        ensures
            r is Ok == written_files(*self, grid@, grid@.len()) is Ok,
            r matches Ok(files) ==> Ok::<Seq<(Seq<char>, Seq<u8>)>, CrudError>(files_view(files@))
                == written_files(*self, grid@, grid@.len()),
            r matches Err(e) ==> Err::<Seq<(Seq<char>, Seq<u8>)>, CrudError>(e) == written_files(
                *self,
                grid@,
                grid@.len(),
            ),
    {
        let history = grid.get_history();
        let mut files: Vec<SnapshotFile> = Vec::new();
        let mut i: usize = 0;
        assert(files_view(files@) =~= Seq::empty());
        while i < history.len()
            invariant
                0 <= i <= history.len(),
                history_view(history@) == grid@,
                written_files(*self, grid@, i as nat) == Ok::<
                    Seq<(Seq<char>, Seq<u8>)>,
                    CrudError,
                >(files_view(files@)),
            decreases history.len() - i,
        {
            let ghost before = files_view(files@);
            assert(grid@[i as int] == history@[i as int]@);
            let stored = match self.gen_state(&history[i]) {
                Ok(render) => self.store(&render),
                Err(e) => Err(e),
            };
            match stored {
                Ok(contents) => {
                    let file = SnapshotFile { name: name_of(i, self.file_extension()), contents };
                    let ghost added = file_view(file);
                    files.push(file);
                    assert(files_view(files@) =~= before.push(added));
                },
                Err(e) => {
                    proof {
                        lemma_written_files_fail(*self, grid@, (i + 1) as nat, grid@.len());
                    }
                    return Err(e);
                },
            }
            i += 1;
        }
        Ok(files)
    }
}

impl Renderer {
    /// The fragment that this format makes of a board, where it makes one.
    pub open spec fn fragment(self, cells: Seq<Seq<u8>>, scale: nat) -> Result<
        RenderView,
        CrudError,
    > {
        match self {
            Renderer::Svg(_) => Ok(RenderView::Txt(state_markup(cells, scale))),
            Renderer::Png(_) => if image_fits(cells[0].len(), cells.len(), 3) {
                Ok(state_raster(cells))
            } else {
                Err(CrudError::ImageTooLarge)
            },
        }
    }

    /// Renders one state. Squares have the side `scale`; a raster has one
    /// pixel per cell whatever the scale.
    pub fn gen_state(&self, state: &State, scale: usize) -> (r: Result<Render, CrudError>)
        ensures
            r is Ok == self.fragment(state@, scale as nat) is Ok,
            r matches Ok(render) ==> Ok::<RenderView, CrudError>(render@) == self.fragment(
                state@,
                scale as nat,
            ),
            r matches Err(e) ==> Err::<RenderView, CrudError>(e) == self.fragment(
                state@,
                scale as nat,
            ),
    {
        match self {
            Renderer::Svg(renderer) => Ok(renderer.gen_state(state, scale)),
            Renderer::Png(renderer) => renderer.gen_state(state),
        }
    }
}

/// The fragments that a renderer makes of the first `upto` states, or the
/// error of the first state that it cannot render.
pub open spec fn fragments(
    renderer: Renderer,
    history: Seq<Seq<Seq<u8>>>,
    upto: nat,
    scale: nat,
) -> Result<Seq<RenderView>, CrudError>
    decreases upto,
{
    if upto == 0 {
        Ok(Seq::empty())
    } else {
        match fragments(renderer, history, (upto - 1) as nat, scale) {
            Err(e) => Err(e),
            Ok(before) => match renderer.fragment(history[upto - 1], scale) {
                Err(e) => Err(e),
                Ok(fragment) => Ok(before.push(fragment)),
            },
        }
    }
}

/// Once rendering a prefix fails, rendering every longer prefix fails alike.
pub proof fn lemma_fragments_fail(
    renderer: Renderer,
    history: Seq<Seq<Seq<u8>>>,
    failed: nat,
    upto: nat,
    scale: nat,
)
    requires
        failed <= upto,
        fragments(renderer, history, failed, scale) is Err,
    ensures
        fragments(renderer, history, upto, scale) == fragments(renderer, history, failed, scale),
    decreases upto,
{
    if failed < upto {
        lemma_fragments_fail(renderer, history, failed, (upto - 1) as nat, scale);
    }
}

impl Renderer {
    /// Renders every state of a history, in the order of the history.
    pub fn render_grid(&self, grid: &Grid, scale: usize) -> (r: Result<Vec<Render>, CrudError>)
        ensures
            r is Ok == fragments(*self, grid@, grid@.len(), scale as nat) is Ok,
            r matches Ok(renders) ==> Ok::<Seq<RenderView>, CrudError>(renders_view(renders@))
                == fragments(*self, grid@, grid@.len(), scale as nat),
            r matches Err(e) ==> Err::<Seq<RenderView>, CrudError>(e) == fragments(
                *self,
                grid@,
                grid@.len(),
                scale as nat,
            ),
    {
        let history = grid.get_history();
        let mut renders: Vec<Render> = Vec::new();
        let mut i: usize = 0;
        assert(renders_view(renders@) =~= Seq::empty());
        while i < history.len()
            invariant
                0 <= i <= history.len(),
                history_view(history@) == grid@,
                fragments(*self, grid@, i as nat, scale as nat) == Ok::<
                    Seq<RenderView>,
                    CrudError,
                >(renders_view(renders@)),
            decreases history.len() - i,
        {
            let ghost before = renders_view(renders@);
            assert(grid@[i as int] == history@[i as int]@);
            match self.gen_state(&history[i], scale) {
                Ok(render) => {
                    let ghost added = render@;
                    renders.push(render);
                    assert(renders_view(renders@) =~= before.push(added));
                },
                Err(e) => {
                    proof {
                        lemma_fragments_fail(
                            *self,
                            grid@,
                            (i + 1) as nat,
                            grid@.len(),
                            scale as nat,
                        );
                    }
                    return Err(e);
                },
            }
            i += 1;
        }
        Ok(renders)
    }
}

impl Output {
    /// Assembles fragments, in their order, into the one animation of a run.
    pub fn render(&self, renders: &Vec<Render>, config: &Config) -> (r: Result<String, CrudError>)
        ensures
            r is Ok == animation(renders_view(renders@), *config) is Ok,
            r matches Ok(markup) ==> Ok::<Seq<char>, CrudError>(markup@) == animation(
                renders_view(renders@),
                *config,
            ),
            r matches Err(e) ==> Err::<Seq<char>, CrudError>(e) == animation(
                renders_view(renders@),
                *config,
            ),
    {
        match self {
            Output::Svg(output) => output.render(
                renders,
                config.width,
                config.height,
                config.cell_scale,
                config.start_delay_ms,
                config.frame_duration_ms,
            ),
        }
    }
}

/// The animation of fragments under a configuration.
pub open spec fn animation(renders: Seq<RenderView>, config: Config) -> Result<
    Seq<char>,
    CrudError,
> {
    rendered(
        renders,
        config.width as nat,
        config.height as nat,
        config.cell_scale as nat,
        config.start_delay_ms as nat,
        config.frame_duration_ms as nat,
    )
}

impl TxtReader {
    /// Reads a history from text snapshots, taken in the order of their
    /// names; where there is none, the history starts afresh at random.
    pub fn read_grid(
        &self,
        files: &Vec<SnapshotFile>,
        width: usize,
        height: usize,
        chance: usize,
    ) -> (r: Result<Grid, CrudError>)
        requires
            width > 0,
            height > 0,
        ensures
            files@.len() == 0 ==> (r matches Ok(grid) && grid@.len() == 1 && is_seeded(
                grid@[0],
                width as nat,
                height as nat,
                chance,
            )),
            files@.len() > 0 ==> {
                let expected = read_files(
                    Reader::Txt(*self),
                    files_view(files@),
                    width as nat,
                    height as nat,
                );
                &&& r is Ok == expected is Ok
                &&& r matches Ok(grid) ==> Ok::<Seq<Seq<Seq<u8>>>, CrudError>(grid@) == expected
                &&& r matches Err(e) ==> Err::<Seq<Seq<Seq<u8>>>, CrudError>(e) == expected
            },
    {
        Reader::Txt(*self).read_grid(files, width, height, chance)
    }
}

impl PngReader {
    /// Reads a history from image snapshots, taken in the order of their
    /// names; where there is none, the history starts afresh at random.
    pub fn read_grid(
        &self,
        files: &Vec<SnapshotFile>,
        width: usize,
        height: usize,
        chance: usize,
    ) -> (r: Result<Grid, CrudError>)
        requires
            width > 0,
            height > 0,
        ensures
            files@.len() == 0 ==> (r matches Ok(grid) && grid@.len() == 1 && is_seeded(
                grid@[0],
                width as nat,
                height as nat,
                chance,
            )),
            files@.len() > 0 ==> {
                let expected = read_files(
                    Reader::Png(*self),
                    files_view(files@),
                    width as nat,
                    height as nat,
                );
                &&& r is Ok == expected is Ok
                &&& r matches Ok(grid) ==> Ok::<Seq<Seq<Seq<u8>>>, CrudError>(grid@) == expected
                &&& r matches Err(e) ==> Err::<Seq<Seq<Seq<u8>>>, CrudError>(e) == expected
            },
    {
        Reader::Png(*self).read_grid(files, width, height, chance)
    }
}

impl TxtWriter {
    /// Turns text fragments into the files of a snapshot directory. A
    /// raster among them is an error.
    pub fn write_grid(&self, renders: &Vec<Render>) -> (r: Result<Vec<SnapshotFile>, CrudError>)
        ensures
            r is Ok == stored_files(Writer::Txt(*self), renders_view(renders@), renders@.len())
                is Ok,
            r matches Ok(files) ==> Ok::<Seq<(Seq<char>, Seq<u8>)>, CrudError>(files_view(files@))
                == stored_files(Writer::Txt(*self), renders_view(renders@), renders@.len()),
            r matches Err(e) ==> Err::<Seq<(Seq<char>, Seq<u8>)>, CrudError>(e) == stored_files(
                Writer::Txt(*self),
                renders_view(renders@),
                renders@.len(),
            ),
    {
        Writer::Txt(*self).write_grid(renders)
    }
}

impl PngWriter {
    /// Turns rasters into the files of a snapshot directory. Text among
    /// them is an error.
    pub fn write_grid(&self, renders: &Vec<Render>) -> (r: Result<Vec<SnapshotFile>, CrudError>)
        ensures
            r is Ok == stored_files(Writer::Png(*self), renders_view(renders@), renders@.len())
                is Ok,
            r matches Ok(files) ==> Ok::<Seq<(Seq<char>, Seq<u8>)>, CrudError>(files_view(files@))
                == stored_files(Writer::Png(*self), renders_view(renders@), renders@.len()),
            r matches Err(e) ==> Err::<Seq<(Seq<char>, Seq<u8>)>, CrudError>(e) == stored_files(
                Writer::Png(*self),
                renders_view(renders@),
                renders@.len(),
            ),
    {
        Writer::Png(*self).write_grid(renders)
    }
}

} // verus!
