//! The pipeline: one format chosen for each capability (reading, writing,
//! rendering, output), and the three operations built on that choice.

use vstd::prelude::*;

use crate::codec::{
    animation,
    fragments,
    read_files,
    written_files,
    Output,
    Reader,
    Renderer,
    Writer,
};
use crate::config::Config;
use crate::error::CrudError;
use crate::grid::Grid;
use crate::plan::WritePlan;
use crate::png::{PngReader, PngWriter};
use crate::seed::is_seeded;
use crate::snapshot::{files_view, SnapshotFile};
use crate::svg::{SvgOutput, SvgRenderer};
use crate::txt::{TxtReader, TxtWriter};

verus! {

/// The formats that the pipeline knows.
#[derive(Debug, Clone, Copy, PartialEq, Eq)]
pub enum Ext {
    /// Raster images.
    PNG,
    /// Plain text.
    TXT,
    /// Vector drawings.
    SVG,
}

/// The formats in which a history can be drawn as one animation.
#[derive(Debug, Clone, Copy, PartialEq, Eq)]
pub enum RenderExt {
    /// Vector drawings.
    SVG,
}

impl Ext {
    /// The reader of this format. Text and raster images can be read;
    /// vector drawings cannot.
    pub fn get_reader(&self) -> (r: Result<Reader, CrudError>)
        ensures
            match *self {
                Ext::TXT => r matches Ok(reader) && reader is Txt,
                Ext::PNG => r matches Ok(reader) && reader is Png,
                Ext::SVG => r matches Err(e) && e == (CrudError::UnsupportedFormat {
                    format: "SVG",
                    capability: "reader",
                }),
            },
    {
        match self {
            Ext::TXT => Ok(Reader::Txt(TxtReader {  })),
            Ext::PNG => Ok(Reader::Png(PngReader {  })),
            Ext::SVG => Err(CrudError::UnsupportedFormat { format: "SVG", capability: "reader" }),
        }
    }

    /// The writer of this format. Text and raster images can be written;
    /// vector drawings cannot.
    pub fn get_writer(&self) -> (r: Result<Writer, CrudError>)
        ensures
            match *self {
                Ext::TXT => r matches Ok(writer) && writer is Txt,
                Ext::PNG => r matches Ok(writer) && writer is Png,
                Ext::SVG => r matches Err(e) && e == (CrudError::UnsupportedFormat {
                    format: "SVG",
                    capability: "writer",
                }),
            },
    {
        match self {
            Ext::TXT => Ok(Writer::Txt(TxtWriter {  })),
            Ext::PNG => Ok(Writer::Png(PngWriter {  })),
            Ext::SVG => Err(CrudError::UnsupportedFormat { format: "SVG", capability: "writer" }),
        }
    }

    /// The renderer of this format. Vector drawings and raster images can
    /// render a state; text cannot.
    pub fn get_renderer(&self) -> (r: Result<Renderer, CrudError>)
        ensures
            match *self {
                Ext::SVG => r matches Ok(renderer) && renderer is Svg,
                Ext::PNG => r matches Ok(renderer) && renderer is Png,
                Ext::TXT => r matches Err(e) && e == (CrudError::UnsupportedFormat {
                    format: "TXT",
                    capability: "renderer",
                }),
            },
    {
        match self {
            Ext::SVG => Ok(Renderer::Svg(SvgRenderer {  })),
            Ext::PNG => Ok(Renderer::Png(PngWriter {  })),
            Ext::TXT => Err(
                CrudError::UnsupportedFormat { format: "TXT", capability: "renderer" },
            ),
        }
    }

    /// The output of this format. Only vector drawings assemble an
    /// animation.
    pub fn get_outputer(&self) -> (r: Result<Output, CrudError>)
        ensures
            match *self {
                Ext::SVG => r matches Ok(output) && output is Svg,
                Ext::PNG => r matches Err(e) && e == (CrudError::UnsupportedFormat {
                    format: "PNG",
                    capability: "output",
                }),
                Ext::TXT => r matches Err(e) && e == (CrudError::UnsupportedFormat {
                    format: "TXT",
                    capability: "output",
                }),
            },
    {
        match self {
            Ext::SVG => Ok(Output::Svg(SvgOutput {  })),
            Ext::PNG => Err(CrudError::UnsupportedFormat { format: "PNG", capability: "output" }),
            Ext::TXT => Err(CrudError::UnsupportedFormat { format: "TXT", capability: "output" }),
        }
    }
}

impl RenderExt {
    /// The renderer of this format.
    pub fn get_renderer(&self) -> (renderer: Renderer)
        ensures
            renderer is Svg,
    {
        match self {
            RenderExt::SVG => Renderer::Svg(SvgRenderer {  }),
        }
    }

    /// The output of this format.
    pub fn output(&self) -> (output: Output)
        ensures
            output is Svg,
    {
        match self {
            RenderExt::SVG => Output::Svg(SvgOutput {  }),
        }
    }
}

/// The unsupported-format error of a format and a capability.
pub open spec fn unsupported(format: &'static str, capability: &'static str) -> CrudError {
    CrudError::UnsupportedFormat { format, capability }
}

/// The pipeline: the formats bound to reading, writing, rendering and
/// output.
#[derive(Debug, Clone, Copy)]
pub struct Crud {
    reader_type: Ext,
    writer_type: Ext,
    render_type: Ext,
    output_type: Ext,
}

impl Crud {
    /// The format that reads.
    pub closed spec fn reader_type(&self) -> Ext {
        self.reader_type
    }

    /// The format that writes.
    pub closed spec fn writer_type(&self) -> Ext {
        self.writer_type
    }

    /// The format that renders.
    pub closed spec fn render_type(&self) -> Ext {
        self.render_type
    }

    /// The format that assembles the animation.
    pub closed spec fn output_type(&self) -> Ext {
        self.output_type
    }

    /// Binds one format to each capability. Whether a format has the
    /// capability it is bound to shows when the capability is used.
    pub fn new(reader_type: Ext, writer_type: Ext, render_type: Ext, output_type: Ext) -> (crud:
        Crud)
        ensures
            crud.reader_type() == reader_type,
            crud.writer_type() == writer_type,
            crud.render_type() == render_type,
            crud.output_type() == output_type,
    {
        Crud { reader_type, writer_type, render_type, output_type }
    }

    /// Reads the history stored in the files of a snapshot directory, or
    /// starts one afresh where there is no file.
    pub fn read(&self, files: &Vec<SnapshotFile>, config: &Config) -> (r: Result<Grid, CrudError>)
        requires
            config.valid(),
        ensures
            self.reader_type() == Ext::SVG ==> r == Err::<Grid, CrudError>(
                unsupported("SVG", "reader"),
            ),
            self.reader_type() != Ext::SVG && files@.len() == 0 ==> (r matches Ok(grid)
                && grid@.len() == 1 && is_seeded(
                grid@[0],
                config.width as nat,
                config.height as nat,
                config.populate_chance,
            )),
            self.reader_type() != Ext::SVG && files@.len() > 0 ==> {
                let expected = read_files(
                    reader_of(self.reader_type()),
                    files_view(files@),
                    config.width as nat,
                    config.height as nat,
                );
                &&& r is Ok == expected is Ok
                &&& r matches Ok(grid) ==> Ok::<Seq<Seq<Seq<u8>>>, CrudError>(grid@) == expected
                &&& r matches Err(e) ==> Err::<Seq<Seq<Seq<u8>>>, CrudError>(e) == expected
            },
    {
        match self.reader_type.get_reader() {
            Ok(reader) => reader.read_grid(
                files,
                config.width,
                config.height,
                config.populate_chance,
            ),
            Err(e) => Err(e),
        }
    }

    /// Plans the replacement of what a snapshot directory holds by the
    /// given history: every file named in `existing` is to be removed, and
    /// one file per generation is to be written.
    pub fn write(&self, existing: Vec<String>, grid: &Grid) -> (r: Result<WritePlan, CrudError>)
        ensures
            self.writer_type() == Ext::SVG ==> r == Err::<WritePlan, CrudError>(
                unsupported("SVG", "writer"),
            ),
            self.writer_type() != Ext::SVG ==> {
                let expected = written_files(writer_of(self.writer_type()), grid@, grid@.len());
                &&& r is Ok == expected is Ok
                &&& r matches Ok(plan) ==> plan.remove@ == existing@ && Ok::<
                    Seq<(Seq<char>, Seq<u8>)>,
                    CrudError,
                >(files_view(plan.files@)) == expected
                &&& r matches Err(e) ==> Err::<Seq<(Seq<char>, Seq<u8>)>, CrudError>(e) == expected
            },
    {
        let writer = match self.writer_type.get_writer() {
            Ok(writer) => writer,
            Err(e) => {
                return Err(e);
            },
        };
        match writer.write_history(grid) {
            Ok(files) => Ok(WritePlan { remove: existing, files }),
            Err(e) => Err(e),
        }
    }

    /// Draws a history as one animation: every state rendered by the bound
    /// renderer, the fragments assembled by the bound output in the order
    /// of the generations.
    pub fn render(&self, grid: &Grid, config: &Config) -> (r: Result<String, CrudError>)
        ensures
            r is Ok == drawn(self.render_type(), self.output_type(), grid@, *config) is Ok,
            r matches Ok(markup) ==> Ok::<Seq<char>, CrudError>(markup@) == drawn(
                self.render_type(),
                self.output_type(),
                grid@,
                *config,
            ),
            r matches Err(e) ==> Err::<Seq<char>, CrudError>(e) == drawn(
                self.render_type(),
                self.output_type(),
                grid@,
                *config,
            ),
    {
        let output = match self.output_type.get_outputer() {
            Ok(output) => output,
            Err(e) => {
                return Err(e);
            },
        };
        let renderer = match self.render_type.get_renderer() {
            Ok(renderer) => renderer,
            Err(e) => {
                return Err(e);
            },
        };
        match renderer.render_grid(grid, config.cell_scale) {
            Ok(renders) => output.render(&renders, config),
            Err(e) => Err(e),
        }
    }
}

/// The reader of a format that reads.
pub open spec fn reader_of(format: Ext) -> Reader {
    match format {
        Ext::PNG => Reader::Png(PngReader {  }),
        _ => Reader::Txt(TxtReader {  }),
    }
}

/// The writer of a format that writes.
pub open spec fn writer_of(format: Ext) -> Writer {
    match format {
        Ext::PNG => Writer::Png(PngWriter {  }),
        _ => Writer::Txt(TxtWriter {  }),
    }
}

/// The renderer of a format that renders.
pub open spec fn renderer_of(format: Ext) -> Renderer {
    match format {
        Ext::PNG => Renderer::Png(PngWriter {  }),
        _ => Renderer::Svg(SvgRenderer {  }),
    }
}

/// What drawing a history comes to: an error where the output or the
/// renderer is not one, else the animation of the rendered states.
pub open spec fn drawn(
    render_type: Ext,
    output_type: Ext,
    history: Seq<Seq<Seq<u8>>>,
    config: Config,
) -> Result<Seq<char>, CrudError> {
    if output_type != Ext::SVG {
        Err(
            unsupported(
                if output_type == Ext::PNG {
                    "PNG"
                } else {
                    "TXT"
                },
                "output",
            ),
        )
    } else if render_type == Ext::TXT {
        Err(unsupported("TXT", "renderer"))
    } else {
        match fragments(
            renderer_of(render_type),
            history,
            history.len(),
            config.cell_scale as nat,
        ) {
            Err(e) => Err(e),
            Ok(renders) => animation(renders, config),
        }
    }
}

} // verus!
