//! The writer of STEP text: a header, a data section with one entry per
//! line, and the closing lines.

use vstd::prelude::*;
use vstd::string::*;
use crate::entry::{EntryView, StepEntry};
use crate::error::Error;
use crate::step_data::{views, StepData};
use crate::text::{decimal_digits, no_quote, push_decimal};

verus! {

/// The protocol that the files of this crate declare in their header.
pub open spec fn protocol_name() -> Seq<char> {
    "AP203_CONFIGURATION_CONTROLLED_3D_DESIGN_OF_MECHANICAL_PARTS_AND_ASSEMBLIES_MIM_LF { 1 0 10303 403 1 1 4 }"@
}

/// The implementation level that the files of this crate declare.
pub open spec fn implementation_level() -> Seq<char> {
    "2;1"@
}

/// The texts of `parts`, with `separator` between each two of them.
pub open spec fn joined(parts: Seq<Seq<char>>, separator: Seq<char>) -> Seq<char>
    decreases parts.len(),
{
    if parts.len() == 0 {
        seq![]
    } else if parts.len() == 1 {
        parts[0]
    } else {
        joined(parts.drop_last(), separator) + separator + parts.last()
    }
}

/// The texts of the strings, in order.
pub open spec fn texts(strings: Seq<String>) -> Seq<Seq<char>> {
    strings.map_values(|s: String| s@)
}

/// Everything that stands before the first entry: the ISO line, the header
/// section with the given implementation level, file name, time stamp and
/// protocols, and the line that opens the data section.
pub open spec fn header_text(
    level: Seq<char>,
    filename: Seq<char>,
    timestamp: Seq<char>,
    protocol: Seq<Seq<char>>,
) -> Seq<char> {
    "ISO-10303-21;\n\n"@ + "HEADER;\n\n"@ + "FILE_DESCRIPTION((''), '"@ + level + "');\n"@
        + "FILE_NAME('"@ + filename + "', '"@ + timestamp
        + "', (''), (''), 'step-merger', '', '');\n"@ + "FILE_SCHEMA(('"@ + joined(
        protocol,
        "'),('"@,
    ) + "'));\n\n"@ + "ENDSEC;\n\n"@ + "DATA;\n"@
}

/// The line of one entry: `#`, the id, `=`, the definition, `;` and a line
/// feed.
pub open spec fn entry_line(entry: EntryView) -> Seq<char> {
    "#"@ + decimal_digits(entry.id as nat) + "="@ + entry.definition + ";\n"@
}

/// The lines of the entries, in order.
pub open spec fn entry_lines(entries: Seq<EntryView>) -> Seq<char>
    decreases entries.len(),
{
    if entries.len() == 0 {
        seq![]
    } else {
        entry_lines(entries.drop_last()) + entry_line(entries.last())
    }
}

/// The lines that close the data section and the file.
pub open spec fn footer_text() -> Seq<char> {
    "ENDSEC;\n\n"@ + "END-ISO-10303-21;\n"@
}

/// The local time of the machine in the notation of RFC 3339, from
/// `chrono::Local::now` and `DateTime::to_rfc3339`. The text differs from
/// call to call; all that is claimed of it is that it holds no `'`: the
/// notation is made of digits, `-`, `:`, `.`, `+`, `T` and `Z`.
#[verifier::external_body]
fn current_timestamp() -> (timestamp: String)
    ensures
        no_quote(timestamp@),
{
    chrono::Local::now().to_rfc3339()
}

/// What a writer is to a reader of the crate: the text of its header, the
/// entries it has written, and whether it was closed.
pub struct WriterView {
    pub header: Seq<char>,
    pub entries: Seq<EntryView>,
    pub is_finalized: bool,
}

impl WriterView {
    /// The text that a writer in this state holds.
    pub open spec fn text(self) -> Seq<char> {
        self.header + entry_lines(self.entries) + if self.is_finalized {
            footer_text()
        } else {
            seq![]
        }
    }
}

/// A writer that builds the text of a STEP file entry by entry.
pub struct StepWriter {
    /// The text that was written.
    output: String,
    /// Whether the closing lines were written.
    is_finalized: bool,
    /// The text of the header.
    header: Ghost<Seq<char>>,
    /// The entries that were written.
    entries: Ghost<Seq<EntryView>>,
}

impl View for StepWriter {
    type V = WriterView;

    closed spec fn view(&self) -> WriterView {
        WriterView {
            header: self.header@,
            entries: self.entries@,
            is_finalized: self.is_finalized,
        }
    }
}

impl StepWriter {
    /// The text that the writer holds is the text of its state.
    #[verifier::type_invariant]
    spec fn holds_its_text(self) -> bool {
        self.output@ == self@.text()
    }

    /// Takes the text out of the writer, to be put back with more at its end.
    fn release(&mut self) -> (output: String)
        ensures
            output@ == old(self)@.text(),
    {
        let mut taken = StepWriter {
            output: String::new(),
            is_finalized: false,
            header: Ghost(Seq::<char>::empty()),
            entries: Ghost(Seq::<EntryView>::empty()),
        };
        assert(taken.output@ =~= taken@.text());
        std::mem::swap(self, &mut taken);
        proof {
            use_type_invariant(&taken);
        }
        taken.output
    }

    /// A writer that holds the header for the given implementation level,
    /// file name and protocols and for the current time, and the line that
    /// opens the data section.
    pub fn new(implementation_level: &str, filename: &str, protocol: &[String]) -> (writer: Result<
        Self,
        Error,
    >)
        ensures
            writer matches Ok(w) && !w@.is_finalized && w@.entries.len() == 0 && exists|
                timestamp: Seq<char>,
            |
                no_quote(timestamp) && w@.header == #[trigger] header_text(
                    implementation_level@,
                    filename@,
                    timestamp,
                    texts(protocol@),
                ),
    {
        let timestamp = current_timestamp();
        Ok(Self::with_timestamp(implementation_level, filename, timestamp.as_str(), protocol))
    }

    /// A writer that holds the header for the given implementation level,
    /// file name, time stamp and protocols, and the line that opens the data
    /// section.
    pub fn with_timestamp(
        implementation_level: &str,
        filename: &str,
        timestamp: &str,
        protocol: &[String],
    ) -> (writer: Self)
        ensures
            !writer@.is_finalized,
            writer@.entries.len() == 0,
            writer@.header == header_text(
                implementation_level@,
                filename@,
                timestamp@,
                texts(protocol@),
            ),
    {
        let mut output = String::new();
        output.append("ISO-10303-21;\n\n");
        output.append("HEADER;\n\n");
        output.append("FILE_DESCRIPTION((''), '");
        output.append(implementation_level);
        output.append("');\n");
        output.append("FILE_NAME('");
        output.append(filename);
        output.append("', '");
        output.append(timestamp);
        output.append("', (''), (''), 'step-merger', '', '');\n");
        output.append("FILE_SCHEMA(('");
        let ghost before = output@;
        let ghost parts = texts(protocol@);
        let mut i: usize = 0;
        assert(parts.take(0) =~= Seq::<Seq<char>>::empty());
        while i < protocol.len()
            invariant
                i <= protocol.len(),
                parts == texts(protocol@),
                output@ == before + joined(parts.take(i as int), "'),('"@),
            decreases protocol.len() - i,
        {
            proof {
                assert(parts.take(i + 1).drop_last() =~= parts.take(i as int));
                assert(parts.take(i + 1).last() == protocol@[i as int]@);
            }
            if i > 0 {
                output.append("'),('");
            }
            output.append(protocol[i].as_str());
            i += 1;
        }
        assert(parts.take(i as int) =~= parts);
        output.append("'));\n\n");
        output.append("ENDSEC;\n\n");
        output.append("DATA;\n");
        let ghost header = output@;
        assert(header + entry_lines(Seq::<EntryView>::empty()) + Seq::<char>::empty() =~= header);
        StepWriter {
            output,
            is_finalized: false,
            header: Ghost(header),
            entries: Ghost(Seq::<EntryView>::empty()),
        }
    }

    /// Writes the line of `entry`. A writer that was closed takes no entry.
    pub fn write_entry(&mut self, entry: &StepEntry) -> (result: Result<(), Error>)
        requires
            !old(self)@.is_finalized,
        ensures
            result is Ok,
            final(self)@ == (WriterView {
                entries: old(self)@.entries.push(entry@),
                ..old(self)@
            }),
    {
        let ghost state = self@;
        let mut output = self.release();
        output.append("#");
        push_decimal(&mut output, entry.get_id());
        output.append("=");
        output.append(entry.get_definition());
        output.append(";\n");
        proof {
            let entries = state.entries.push(entry@);
            assert(entries.drop_last() =~= state.entries);
            assert(output@ =~= state.header + entry_lines(entries) + Seq::<char>::empty());
        }
        *self = StepWriter {
            output,
            is_finalized: false,
            header: Ghost(state.header),
            entries: Ghost(state.entries.push(entry@)),
        };
        Ok(())
    }

    /// Closes the data section and the file. A second call changes nothing.
    pub fn finalize(&mut self) -> (result: Result<(), Error>)
        ensures
            result is Ok,
            final(self)@ == (WriterView { is_finalized: true, ..old(self)@ }),
    {
        if self.is_finalized {
            return Ok(());
        }
        let ghost state = self@;
        let mut output = self.release();
        output.append("ENDSEC;\n\n");
        output.append("END-ISO-10303-21;\n");
        proof {
            assert(output@ =~= state.header + entry_lines(state.entries) + footer_text());
        }
        *self = StepWriter {
            output,
            is_finalized: true,
            header: Ghost(state.header),
            entries: Ghost(state.entries),
        };
        Ok(())
    }

    /// Whether the closing lines were written.
    pub fn is_finalized(&self) -> (finalized: bool)
        ensures
            finalized == self@.is_finalized,
    {
        self.is_finalized
    }

    /// The text that the writer holds: the header, the line of each entry
    /// that was written, and the closing lines once the writer was closed.
    pub fn get_output(&self) -> (output: &str)
        ensures
            output@ == self@.text(),
    {
        proof {
            use_type_invariant(self);
        }
        self.output.as_str()
    }

    /// Closes the file, if that was not done yet, and hands out its text.
    pub fn into_output(self) -> (output: String)
        ensures
            output@ == (WriterView { is_finalized: true, ..self@ }).text(),
    {
        let mut writer = self;
        let _ = writer.finalize();
        proof {
            use_type_invariant(&writer);
        }
        writer.output
    }
}

/// The text of a STEP file that holds the entries of `step`, with `filename`
/// and the current time in its header.
pub fn write_step(step: &StepData, filename: &str) -> (result: Result<String, Error>)
    ensures
        result matches Ok(text) && exists|timestamp: Seq<char>|
            no_quote(timestamp) && text@ == #[trigger] header_text(
                implementation_level(),
                filename@,
                timestamp,
                seq![protocol_name()],
            ) + entry_lines(step@.entries) + footer_text(),
{
    let timestamp = current_timestamp();
    Ok(write_step_at(step, filename, timestamp.as_str()))
}

/// The text of a STEP file that holds the entries of `step`, with `filename`
/// and `timestamp` in its header.
pub fn write_step_at(step: &StepData, filename: &str, timestamp: &str) -> (text: String)
    ensures
        text@ == header_text(implementation_level(), filename@, timestamp@, seq![protocol_name()])
            + entry_lines(step@.entries) + footer_text(),
{
    let mut protocol: Vec<String> = Vec::new();
    protocol.push(
        "AP203_CONFIGURATION_CONTROLLED_3D_DESIGN_OF_MECHANICAL_PARTS_AND_ASSEMBLIES_MIM_LF { 1 0 10303 403 1 1 4 }".to_owned(),
    );
    assert(texts(protocol@) =~= seq![protocol_name()]);
    let mut writer = StepWriter::with_timestamp("2;1", filename, timestamp, protocol.as_slice());
    let entries = step.get_entries();
    let ghost header = writer@.header;
    let mut i: usize = 0;
    assert(views(entries@).take(0) =~= writer@.entries);
    while i < entries.len()
        invariant
            i <= entries.len(),
            !writer@.is_finalized,
            writer@.header == header,
            writer@.entries == views(entries@).take(i as int),
        decreases entries.len() - i,
    {
        let _ = writer.write_entry(&entries[i]);
        assert(views(entries@).take(i + 1) =~= views(entries@).take(i as int).push(
            entries@[i as int]@,
        ));
        i += 1;
    }
    assert(views(entries@).take(i as int) =~= views(entries@));
    writer.into_output()
}

} // verus!
