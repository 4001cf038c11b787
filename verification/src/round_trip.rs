//! What is written can be read: a history stored as text comes back as it
//! was, generation by generation and in order.

use vstd::prelude::*;
use vstd::utf8::encode_utf8;

use crate::codec::{decoded_files, read_files, written_files, Reader, Writer};
use crate::error::CrudError;
use crate::snapshot::{
    index_limit,
    is_strictly_sorted_by_name,
    lemma_names_ordered,
    lemma_sort_any_order,
    snapshot_name,
};
use crate::state::is_board;
use crate::txt::{board_text, lemma_txt_round_trip, TxtReader, TxtWriter};

verus! {

/// Whether every generation of a history is a board of the given size.
pub open spec fn is_history(history: Seq<Seq<Seq<u8>>>, width: nat, height: nat) -> bool {
    forall|i: int|
        0 <= i < history.len() ==> {
            &&& is_board(#[trigger] history[i])
            &&& history[i].len() == height
            &&& history[i][0].len() == width
        }
}

/// The files in which a history is stored as text: generation `i` under
/// the name of `i`, as the bytes of its text.
pub open spec fn txt_files(history: Seq<Seq<Seq<u8>>>) -> Seq<(Seq<char>, Seq<u8>)> {
    Seq::new(
        history.len(),
        |i: int| (snapshot_name(i as nat, "txt"@), encode_utf8(board_text(history[i]))),
    )
}

/// Writing a history as text never fails, and gives its text files.
pub proof fn lemma_txt_written(history: Seq<Seq<Seq<u8>>>, upto: nat)
    requires
        upto <= history.len(),
    ensures
        written_files(Writer::Txt(TxtWriter {  }), history, upto) == Ok::<
            Seq<(Seq<char>, Seq<u8>)>,
            CrudError,
        >(txt_files(history).take(upto as int)),
    decreases upto,
{
    let writer = Writer::Txt(TxtWriter {  });
    if upto == 0 {
        assert(txt_files(history).take(0) =~= Seq::empty());
    } else {
        lemma_txt_written(history, (upto - 1) as nat);
        assert(txt_files(history).take(upto as int) =~= txt_files(history).take(upto - 1).push(
            txt_files(history)[upto - 1],
        ));
    }
}

/// The text files of a history that is not too long have names that go
/// strictly up with the generations.
pub proof fn lemma_txt_files_sorted(history: Seq<Seq<Seq<u8>>>)
    requires
        history.len() <= index_limit(),
    ensures
        is_strictly_sorted_by_name(txt_files(history)),
{
    let files = txt_files(history);
    assert forall|i: int, j: int| 0 <= i < j < files.len() implies crate::snapshot::name_lt(
        #[trigger] files[i].0,
        #[trigger] files[j].0,
    ) by {
        lemma_names_ordered(i as nat, j as nat, "txt"@);
    }
}

/// Reading the text files of a history, in their order, gives the history.
pub proof fn lemma_txt_decoded(history: Seq<Seq<Seq<u8>>>, upto: nat, width: nat, height: nat)
    requires
        is_history(history, width, height),
        upto <= history.len(),
    ensures
        decoded_files(Reader::Txt(TxtReader {  }), txt_files(history), upto, width, height) == Ok::<
            Seq<Seq<Seq<u8>>>,
            CrudError,
        >(history.take(upto as int)),
    decreases upto,
{
    if upto == 0 {
        assert(history.take(0) =~= Seq::empty());
    } else {
        lemma_txt_decoded(history, (upto - 1) as nat, width, height);
        lemma_txt_round_trip(history[upto - 1]);
        assert(history.take(upto as int) =~= history.take(upto - 1).push(history[upto - 1]));
    }
}

/// A history written as text and read back at its own size is the same
/// history: the same generations in the same order, in whatever order the
/// files are found. This holds for histories of up to a hundred million
/// generations, beyond which names no longer sort as indices.
pub proof fn lemma_history_round_trip(
    history: Seq<Seq<Seq<u8>>>,
    width: nat,
    height: nat,
    found: Seq<(Seq<char>, Seq<u8>)>,
)
    requires
        is_history(history, width, height),
        history.len() <= index_limit(),
        found.to_multiset() == txt_files(history).to_multiset(),
    ensures
        written_files(Writer::Txt(TxtWriter {  }), history, history.len()) == Ok::<
            Seq<(Seq<char>, Seq<u8>)>,
            CrudError,
        >(txt_files(history)),
        read_files(Reader::Txt(TxtReader {  }), found, width, height) == Ok::<
            Seq<Seq<Seq<u8>>>,
            CrudError,
        >(history),
{
    broadcast use vstd::seq_lib::group_to_multiset_ensures;

    lemma_txt_written(history, history.len());
    assert(txt_files(history).take(history.len() as int) =~= txt_files(history));
    lemma_txt_files_sorted(history);
    lemma_sort_any_order(found, txt_files(history));
    assert(found.len() == history.len()) by {
        vstd::seq_lib::to_multiset_len(found);
        vstd::seq_lib::to_multiset_len(txt_files(history));
    }
    lemma_txt_decoded(history, history.len(), width, height);
    assert(history.take(history.len() as int) =~= history);
}

} // verus!
