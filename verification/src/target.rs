//! The target machine, as far as what is typed goes: a shell that reads line by line, files that lines go
//! into, commands that decode a file into another, and the calls of anything else.

use vstd::prelude::*;
use vstd::utf8::encode_utf8;
use crate::cli::{
    delivery, deploy_plan, file_steps, invoke_of, join_command, part_steps, parts_steps, plan_of, shown,
    text_view, Args, StepView,
};
use crate::config::{CMD_SLEEP_MS, WRAP_EVERY};
use crate::encoder::{alphabet, law_far_end_decodes, upper, Encoder, Encoding};
use crate::parts::{
    concat, law_all_parts_by_default, law_parts_make_whole, parts_to_send_of, piece_size,
};
use crate::payload::{
    law_name_tells_all, law_part_input_stays_open, law_part_is_its_stretch, law_transfer_arrives, lemma_encoded_lines,
    lemma_no_line_break, restored, Payload, Source,
};
use crate::radix::{decoded, lemma_encoded_empty, Alphabet};
use crate::restore_script::{
    decode_cmd_for_shell_of, decode_cmd_of, heredoc_footer_of, heredoc_header_of, ops_of, part_uid, Shell,
    Target,
};
use crate::text::{
    dec, ends, is_digit, joined, law_dec_parses, lemma_dec, lemma_position, lemma_split_at, position, split,
    texts,
};
use crate::utils::{
    digest_shaped, gunzipped, is_lower_hex, is_safe, law_wrap_keeps_text, md5_hex, unwrapped, wrapped,
};

verus! {

// ---------------------------------------------------------------------------------------------
// The machine
// ---------------------------------------------------------------------------------------------

/// The state of the machine.
#[verifier::ext_equal]
pub struct Machine {
    /// The files that hold text which was typed.
    pub texts: Map<Seq<char>, Seq<char>>,
    /// The files that a command has written.
    pub data: Map<Seq<char>, Seq<u8>>,
    /// Where the lines go, if they are not commands: a file in Bash, a variable in PowerShell.
    pub open: Option<Seq<char>>,
    /// The lines that have gone there.
    pub held: Seq<Seq<char>>,
    /// The variable `$content` of PowerShell.
    pub content: Seq<char>,
    /// The commands that were called, other than those that the machine itself knows.
    pub calls: Seq<Seq<char>>,
}

/// Lines as text, each with a line break after it.
pub open spec fn lines_text(v: Seq<Seq<char>>) -> Seq<char>
    decreases v.len(),
{
    if v.len() == 0 {
        Seq::empty()
    } else {
        v[0] + seq!['\n'] + lines_text(v.drop_first())
    }
}

/// A command that decodes a file into another.
pub struct Decoding {
    /// How the text is decoded.
    pub alphabet: Alphabet,
    /// Whether the text is put in upper case before.
    pub uppercase: bool,
    /// Whether line breaks in the text are passed over.
    pub lenient: bool,
    /// The file that is read.
    pub input: Seq<char>,
    /// The file that is written.
    pub output: Seq<char>,
}

/// What a command line of Bash decodes. `base32`, `base64` and `xxd` pass over line breaks.
pub open spec fn bash_decoding(line: Seq<char>) -> Option<Decoding> {
    let w = split(line, ' ');
    let o = w.last();
    if w.len() > 2 && line == "cat "@ + w[1] + " | tr 'a-z' 'A-Z' | base32 -d > "@ + o {
        Some(
            Decoding { alphabet: Alphabet::Base32, uppercase: true, lenient: true, input: w[1], output: o },
        )
    } else if w.len() > 2 && line == "cat "@ + w[1] + " | tr 'a-z' 'A-Z' | xxd -r -p > "@ + o {
        Some(Decoding { alphabet: Alphabet::Hex, uppercase: true, lenient: true, input: w[1], output: o })
    } else if w.len() > 2 && line == "base64 -d "@ + w[2] + " > "@ + o {
        Some(
            Decoding { alphabet: Alphabet::Base64, uppercase: false, lenient: true, input: w[2], output: o },
        )
    } else {
        None
    }
}

/// What a command line of PowerShell decodes, by way of Python. `b64decode` and `fromhex` pass over line
/// breaks, `b32decode` does not.
pub open spec fn powershell_decoding(line: Seq<char>) -> Option<Decoding> {
    let w = split(line, ' ');
    let n = w.len() as int;
    let operands = w[n - 2] + " "@ + w[n - 1];
    if n < 3 {
        None
    } else if line
        == "python3 -c \"import sys,base64;open(sys.argv[2],'wb').write(base64.b32decode(open(sys.argv[1]).read().upper()))\" "@
        + operands {
        Some(
            Decoding {
                alphabet: Alphabet::Base32,
                uppercase: true,
                lenient: false,
                input: w[n - 2],
                output: w[n - 1],
            },
        )
    } else if line
        == "python3 -c \"import sys,base64;open(sys.argv[2],'wb').write(base64.b64decode(open(sys.argv[1]).read()))\" "@
        + operands {
        Some(
            Decoding {
                alphabet: Alphabet::Base64,
                uppercase: false,
                lenient: true,
                input: w[n - 2],
                output: w[n - 1],
            },
        )
    } else if line
        == "python3 -c \"import sys;data=open(sys.argv[1]).read().strip().upper();open(sys.argv[2],'wb').write(bytes.fromhex(data))\" "@
        + operands {
        Some(
            Decoding {
                alphabet: Alphabet::Hex,
                uppercase: true,
                lenient: true,
                input: w[n - 2],
                output: w[n - 1],
            },
        )
    } else {
        None
    }
}

/// What a decoding makes of a text.
pub open spec fn decoding_of(d: Decoding, text: Seq<char>) -> Option<Seq<u8>> {
    let a = if d.lenient {
        unwrapped(text)
    } else {
        text
    };
    let b = if d.uppercase {
        upper(a)
    } else {
        a
    };
    decoded(d.alphabet, b)
}

/// What a decoding does: the file to write is emptied, the file to read is read, and what it decodes to is
/// written. Where that is not there, or stands for nothing, the file stays empty.
pub open spec fn decoding_run(m: Machine, d: Decoding) -> Machine {
    let texts = m.texts.remove(d.output);
    let bytes = if texts.dom().contains(d.input) && decoding_of(d, texts[d.input]) is Some {
        decoding_of(d, texts[d.input])->0
    } else {
        Seq::empty()
    };
    Machine { texts, data: m.data.insert(d.output, bytes), ..m }
}

/// A command that the machine does not know: it is called.
pub open spec fn called(m: Machine, line: Seq<char>) -> Machine {
    if line.len() == 0 {
        m
    } else {
        Machine { calls: m.calls.push(line), ..m }
    }
}

/// What a line does in Bash.
pub open spec fn bash_line(m: Machine, line: Seq<char>) -> Machine {
    let w = split(line, ' ');
    match m.open {
        Some(file) => if line == "EOF"@ {
            Machine {
                texts: m.texts.insert(file, lines_text(m.held)),
                data: m.data.remove(file),
                open: None,
                held: Seq::empty(),
                ..m
            }
        } else {
            Machine { held: m.held.push(line), ..m }
        },
        None => if w.len() > 2 && line == "cat > "@ + w[2] + " << 'EOF'"@ {
            Machine { open: Some(w[2]), held: Seq::empty(), ..m }
        } else {
            match bash_decoding(line) {
                Some(d) => decoding_run(m, d),
                None => called(m, line),
            }
        },
    }
}

/// What a line does in PowerShell.
pub open spec fn powershell_line(m: Machine, line: Seq<char>) -> Machine {
    let w = split(line, ' ');
    match m.open {
        Some(_) => if line == "'@"@ {
            Machine { content: lines_text(m.held).drop_last(), open: None, held: Seq::empty(), ..m }
        } else {
            Machine { held: m.held.push(line), ..m }
        },
        None => if line == "$content = @'"@ {
            Machine { open: Some(Seq::empty()), held: Seq::empty(), ..m }
        } else if w.len() > 2 && w[2].len() >= 2 && w[2][0] == '"' && w[2].last() == '"' && line
            == "Set-Content -Path "@ + w[2] + " -Value $content -NoNewline"@ {
            let file = w[2].subrange(1, w[2].len() - 1);
            Machine { texts: m.texts.insert(file, m.content), data: m.data.remove(file), ..m }
        } else {
            match powershell_decoding(line) {
                Some(d) => decoding_run(m, d),
                None => called(m, line),
            }
        },
    }
}

/// What a line does.
pub open spec fn line_typed(shell: Shell, m: Machine, line: Seq<char>) -> Machine {
    match shell {
        Shell::Bash => bash_line(m, line),
        Shell::Powershell => powershell_line(m, line),
    }
}

/// What lines do.
pub open spec fn run(shell: Shell, m: Machine, lines: Seq<Seq<char>>) -> Machine
    decreases lines.len(),
{
    if lines.len() == 0 {
        m
    } else {
        run(shell, line_typed(shell, m, lines[0]), lines.drop_first())
    }
}

/// What the machine does when a text is typed: what its lines do, as far as they are ended.
pub open spec fn after(shell: Shell, m: Machine, typed: Seq<char>) -> Machine {
    run(shell, m, split(typed, '\n').drop_last())
}

// ---------------------------------------------------------------------------------------------
// Lines and words
// ---------------------------------------------------------------------------------------------

/// Whether a text can stand in a command as one word.
pub open spec fn is_word(s: Seq<char>) -> bool {
    s.len() > 0 && !s.contains(' ') && !s.contains('\n') && !s.contains('"') && !s.contains('\'')
}

/// A text without the separator is one piece.
pub proof fn lemma_one_piece(s: Seq<char>, sep: char)
    requires
        !s.contains(sep),
    ensures
        split(s, sep) == seq![s],
{
    lemma_position(s, sep);
    if position(s, sep) < s.len() {
        assert(s.contains(s[position(s, sep)]));
    }
}

proof fn lemma_split_len(s: Seq<char>, sep: char)
    ensures
        split(s, sep).len() > 0,
{
}

/// Neither text has the character, so both together do not.
pub proof fn lemma_add_lacks(a: Seq<char>, b: Seq<char>, c: char)
    requires
        !a.contains(c),
        !b.contains(c),
    ensures
        !(a + b).contains(c),
{
    if (a + b).contains(c) {
        let i = choose|i: int| 0 <= i < (a + b).len() && (a + b)[i] == c;
        if i < a.len() {
            assert(a[i] == c);
        } else {
            assert(b[i - a.len()] == c);
        }
    }
}

pub proof fn lemma_run_add(shell: Shell, m: Machine, a: Seq<Seq<char>>, b: Seq<Seq<char>>)
    ensures
        run(shell, m, a + b) == run(shell, run(shell, m, a), b),
    decreases a.len(),
{
    if a.len() == 0 {
        assert(a + b =~= b);
    } else {
        lemma_run_add(shell, line_typed(shell, m, a[0]), a.drop_first(), b);
        assert((a + b).drop_first() =~= a.drop_first() + b);
        assert((a + b)[0] == a[0]);
    }
}

/// What is typed up to the end of a line has been carried out when the rest comes.
pub proof fn lemma_after_add(shell: Shell, m: Machine, a: Seq<char>, b: Seq<char>)
    ensures
        after(shell, m, a + seq!['\n'] + b) == after(shell, after(shell, m, a + seq!['\n']), b),
        after(shell, m, a + seq!['\n']) == run(shell, m, split(a, '\n')),
{
    let none = Seq::<char>::empty();
    lemma_split_at(a, b, '\n');
    lemma_split_at(a, none, '\n');
    lemma_one_piece(none, '\n');
    lemma_split_len(b, '\n');
    assert(a + seq!['\n'] + none =~= a + seq!['\n']);
    assert((split(a, '\n') + seq![none]).drop_last() =~= split(a, '\n'));
    assert((split(a, '\n') + split(b, '\n')).drop_last() =~= split(a, '\n') + split(b, '\n').drop_last());
    lemma_run_add(shell, m, split(a, '\n'), split(b, '\n').drop_last());
}

/// One line.
pub proof fn lemma_after_line(shell: Shell, m: Machine, line: Seq<char>)
    requires
        !line.contains('\n'),
    ensures
        after(shell, m, line + seq!['\n']) == line_typed(shell, m, line),
{
    lemma_after_add(shell, m, line, Seq::empty());
    lemma_one_piece(line, '\n');
    reveal_with_fuel(run, 2);
    assert(seq![line].drop_first() =~= Seq::<Seq<char>>::empty());
}

/// The lines of a text give the text back.
proof fn lemma_lines_text(s: Seq<char>)
    ensures
        lines_text(split(s, '\n')) == s + seq!['\n'],
    decreases s.len(),
{
    let n = position(s, '\n');
    lemma_position(s, '\n');
    let v = split(s, '\n');
    if n >= s.len() {
        assert(v.drop_first() =~= Seq::<Seq<char>>::empty());
        assert(lines_text(v.drop_first()) =~= Seq::empty());
        assert(lines_text(v) =~= s + seq!['\n']);
    } else {
        lemma_lines_text(s.skip(n + 1));
        assert(v.drop_first() =~= split(s.skip(n + 1), '\n'));
        assert(lines_text(v) =~= s + seq!['\n']);
    }
}

/// The word after some words.
proof fn lemma_word_at(before: Seq<char>, word: Seq<char>, rest: Seq<char>)
    requires
        !word.contains(' '),
    ensures
        split(before + seq![' '] + word + seq![' '] + rest, ' ') == split(before, ' ') + seq![word] + split(
            rest,
            ' ',
        ),
{
    lemma_split_at(before + seq![' '] + word, rest, ' ');
    lemma_split_at(before, word, ' ');
    lemma_one_piece(word, ' ');
}

/// The last word.
proof fn lemma_last_word(before: Seq<char>, word: Seq<char>)
    requires
        !word.contains(' '),
    ensures
        split(before + seq![' '] + word, ' ') == split(before, ' ').push(word),
{
    lemma_split_at(before, word, ' ');
    lemma_one_piece(word, ' ');
    assert(split(before, ' ') + seq![word] =~= split(before, ' ').push(word));
}

// ---------------------------------------------------------------------------------------------
// Files
// ---------------------------------------------------------------------------------------------

/// Whether no line of a text ends the input that it is part of.
pub open spec fn stays_open(text: Seq<char>) -> bool {
    forall|i: int|
        0 <= i < split(text, '\n').len() ==> (#[trigger] split(text, '\n')[i]) != "EOF"@ && split(
            text,
            '\n',
        )[i] != "'@"@
}

/// Lines that do not end the input are held.
proof fn lemma_run_held(shell: Shell, m: Machine, lines: Seq<Seq<char>>)
    requires
        m.open is Some,
        forall|i: int| 0 <= i < lines.len() ==> (#[trigger] lines[i]) != "EOF"@ && lines[i] != "'@"@,
    ensures
        run(shell, m, lines) == (Machine { held: m.held + lines, ..m }),
    decreases lines.len(),
{
    if lines.len() == 0 {
        assert(m.held + lines =~= m.held);
    } else {
        let n = line_typed(shell, m, lines[0]);
        assert(n == (Machine { held: m.held.push(lines[0]), ..m }));
        let rest = lines.drop_first();
        assert forall|i: int| 0 <= i < rest.len() implies (#[trigger] rest[i]) != "EOF"@ && rest[i]
            != "'@"@ by {
            assert(rest[i] == lines[i + 1]);
        }
        lemma_run_held(shell, n, rest);
        assert(m.held.push(lines[0]) + rest =~= m.held + lines);
    }
}

/// What a machine has after a file was typed.
pub open spec fn with_file(shell: Shell, m: Machine, file: Seq<char>, text: Seq<char>) -> Machine {
    match shell {
        Shell::Bash => Machine {
            texts: m.texts.insert(file, text + seq!['\n']),
            data: m.data.remove(file),
            open: None,
            held: Seq::empty(),
            ..m
        },
        Shell::Powershell => Machine {
            texts: m.texts.insert(file, text),
            data: m.data.remove(file),
            open: None,
            held: Seq::empty(),
            content: text,
            ..m
        },
    }
}

proof fn lemma_bash_opens(m: Machine, file: Seq<char>)
    requires
        m.open is None,
        is_word(file),
    ensures
        bash_line(m, "cat > "@ + file + " << 'EOF'"@) == (Machine {
            open: Some(file),
            held: Seq::empty(),
            ..m
        }),
        !("cat > "@ + file + " << 'EOF'"@).contains('\n'),
{
    reveal_strlit("cat > ");
    reveal_strlit("cat >");
    reveal_strlit("cat");
    reveal_strlit(">");
    reveal_strlit(" << 'EOF'");
    reveal_strlit("<< 'EOF'");
    let line = "cat > "@ + file + " << 'EOF'"@;
    assert(line =~= "cat >"@ + seq![' '] + file + seq![' '] + "<< 'EOF'"@);
    lemma_word_at("cat >"@, file, "<< 'EOF'"@);
    assert("cat >"@ =~= "cat"@ + seq![' '] + ">"@);
    lemma_split_at("cat"@, ">"@, ' ');
    lemma_one_piece("cat"@, ' ');
    lemma_one_piece(">"@, ' ');
    lemma_split_len("<< 'EOF'"@, ' ');
    assert(split(line, ' ')[2] == file);
    lemma_add_lacks("cat > "@, file, '\n');
    lemma_add_lacks("cat > "@ + file, " << 'EOF'"@, '\n');
}

proof fn lemma_powershell_saves(m: Machine, file: Seq<char>)
    requires
        m.open is None,
        is_word(file),
    ensures
        powershell_line(m, "Set-Content -Path \""@ + file + "\" -Value $content -NoNewline"@) == (Machine {
            texts: m.texts.insert(file, m.content),
            data: m.data.remove(file),
            ..m
        }),
        !("Set-Content -Path \""@ + file + "\" -Value $content -NoNewline"@).contains('\n'),
{
    reveal_strlit("Set-Content -Path \"");
    reveal_strlit("Set-Content -Path ");
    reveal_strlit("Set-Content -Path");
    reveal_strlit("Set-Content");
    reveal_strlit("-Path");
    reveal_strlit("\" -Value $content -NoNewline");
    reveal_strlit(" -Value $content -NoNewline");
    reveal_strlit("-Value $content -NoNewline");
    reveal_strlit("$content = @'");
    let line = "Set-Content -Path \""@ + file + "\" -Value $content -NoNewline"@;
    let q = seq!['"'] + file + seq!['"'];
    assert(!q.contains(' ')) by {
        lemma_add_lacks(seq!['"'], file, ' ');
        lemma_add_lacks(seq!['"'] + file, seq!['"'], ' ');
    }
    assert(line =~= "Set-Content -Path"@ + seq![' '] + q + seq![' '] + "-Value $content -NoNewline"@);
    lemma_word_at("Set-Content -Path"@, q, "-Value $content -NoNewline"@);
    assert("Set-Content -Path"@ =~= "Set-Content"@ + seq![' '] + "-Path"@);
    lemma_split_at("Set-Content"@, "-Path"@, ' ');
    lemma_one_piece("Set-Content"@, ' ');
    lemma_one_piece("-Path"@, ' ');
    lemma_split_len("-Value $content -NoNewline"@, ' ');
    assert(split(line, ' ')[2] == q);
    assert(line =~= "Set-Content -Path "@ + q + " -Value $content -NoNewline"@);
    assert(q.subrange(1, q.len() - 1) =~= file);
    assert(line[0] == 'S');
    assert("$content = @'"@[0] == '$');
    lemma_add_lacks("Set-Content -Path \""@, file, '\n');
    lemma_add_lacks("Set-Content -Path \""@ + file, "\" -Value $content -NoNewline"@, '\n');
}

/// Typing a text between the commands for it makes a file of it, under its name, and changes nothing else.
pub proof fn law_typed_text_becomes_file(shell: Shell, m: Machine, file: Seq<char>, text: Seq<char>)
    requires
        m.open is None,
        is_word(file),
        stays_open(text),
    ensures
        after(shell, m, heredoc_header_of(shell, file) + text + heredoc_footer_of(shell, file)) == with_file(
            shell,
            m,
            file,
            text,
        ),
        ends(heredoc_footer_of(shell, file), "\n"@),
{
    let typed = heredoc_header_of(shell, file) + text + heredoc_footer_of(shell, file);
    reveal_strlit("\n");
    lemma_lines_text(text);
    match shell {
        Shell::Bash => {
            reveal_strlit("cat > ");
            reveal_strlit(" << 'EOF'\n");
            reveal_strlit(" << 'EOF'");
            reveal_strlit("\nEOF\n");
            reveal_strlit("EOF");
            let line = "cat > "@ + file + " << 'EOF'"@;
            let m1 = Machine { open: Some(file), held: Seq::empty(), ..m };
            let m2 = Machine { held: split(text, '\n'), ..m1 };
            let rest = text + seq!['\n'] + ("EOF"@ + seq!['\n']);
            assert(typed =~= line + seq!['\n'] + rest);
            lemma_bash_opens(m, file);
            lemma_after_line(shell, m, line);
            lemma_after_add(shell, m, line, rest);
            lemma_after_add(shell, m1, text, "EOF"@ + seq!['\n']);
            lemma_run_held(shell, m1, split(text, '\n'));
            assert(m1.held + split(text, '\n') =~= split(text, '\n'));
            lemma_after_line(shell, m2, "EOF"@);
            assert(heredoc_footer_of(shell, file).skip(4) =~= "\n"@);
        },
        Shell::Powershell => {
            reveal_strlit("$content = @'\n");
            reveal_strlit("$content = @'");
            reveal_strlit("\n'@\nSet-Content -Path \"");
            reveal_strlit("Set-Content -Path \"");
            reveal_strlit("\" -Value $content -NoNewline\n");
            reveal_strlit("\" -Value $content -NoNewline");
            reveal_strlit("'@");
            let open = "$content = @'"@;
            let save = "Set-Content -Path \""@ + file + "\" -Value $content -NoNewline"@;
            let m1 = Machine { open: Some(Seq::empty()), held: Seq::empty(), ..m };
            let m2 = Machine { held: split(text, '\n'), ..m1 };
            let m3 = Machine { content: text, open: None, held: Seq::empty(), ..m };
            let rest = "'@"@ + seq!['\n'] + (save + seq!['\n']);
            assert(typed =~= open + seq!['\n'] + (text + seq!['\n'] + rest));
            lemma_after_line(shell, m, open);
            lemma_after_add(shell, m, open, text + seq!['\n'] + rest);
            lemma_after_add(shell, m1, text, rest);
            lemma_run_held(shell, m1, split(text, '\n'));
            assert(m1.held + split(text, '\n') =~= split(text, '\n'));
            lemma_after_line(shell, m2, "'@"@);
            lemma_after_add(shell, m2, "'@"@, save + seq!['\n']);
            assert((text + seq!['\n']).drop_last() =~= text);
            lemma_powershell_saves(m3, file);
            lemma_after_line(shell, m3, save);
            let f = heredoc_footer_of(shell, file);
            assert(f.skip(f.len() - 1) =~= "\n"@);
        },
    }
}

// ---------------------------------------------------------------------------------------------
// Decoding
// ---------------------------------------------------------------------------------------------

/// What the command for an encoding decodes: it reads the one file and writes the other.
pub open spec fn decoding_for(shell: Shell, e: Encoding, input: Seq<char>, output: Seq<char>) -> Decoding {
    Decoding {
        alphabet: alphabet(e),
        uppercase: e != Encoding::Base64,
        lenient: shell == Shell::Bash || e != Encoding::Base32,
        input,
        output,
    }
}

/// The words of a command that reads a file from `cat` and writes another.
proof fn lemma_cat_words(mid: Seq<char>, file: Seq<char>, out: Seq<char>)
    requires
        is_word(file),
        is_word(out),
        !mid.contains('\n'),
    ensures
        ({
            let line = "cat "@ + file + (seq![' '] + mid + seq![' ']) + out;
            let w = split(line, ' ');
            &&& w.len() > 2
            &&& w[1] == file
            &&& w.last() == out
            &&& !line.contains('\n')
        }),
{
    reveal_strlit("cat ");
    reveal_strlit("cat");
    let line = "cat "@ + file + (seq![' '] + mid + seq![' ']) + out;
    assert(line =~= "cat"@ + seq![' '] + file + seq![' '] + (mid + seq![' '] + out));
    lemma_word_at("cat"@, file, mid + seq![' '] + out);
    lemma_one_piece("cat"@, ' ');
    lemma_last_word(mid, out);
    lemma_split_len(mid, ' ');
    lemma_add_lacks(seq![' '], mid, '\n');
    lemma_add_lacks(seq![' '] + mid, seq![' '], '\n');
    lemma_add_lacks("cat "@, file, '\n');
    lemma_add_lacks("cat "@ + file, seq![' '] + mid + seq![' '], '\n');
    lemma_add_lacks("cat "@ + file + (seq![' '] + mid + seq![' ']), out, '\n');
}

/// A command that ends in a word is not the start of a file.
proof fn lemma_not_open(line: Seq<char>, out: Seq<char>, word: Seq<char>)
    requires
        is_word(out),
        line.len() > 0,
        line.last() == out.last(),
    ensures
        line != "cat > "@ + word + " << 'EOF'"@,
{
    reveal_strlit(" << 'EOF'");
    assert(out.contains(out.last()));
    let other = "cat > "@ + word + " << 'EOF'"@;
    assert(other.last() == '\'');
}

#[verifier::spinoff_prover]
proof fn lemma_bash_base32(file: Seq<char>, out: Seq<char>)
    requires
        is_word(file),
        is_word(out),
    ensures
        ({
            let line = decode_cmd_of(Encoding::Base32, file, out);
            &&& bash_decoding(line) == Some(decoding_for(Shell::Bash, Encoding::Base32, file, out))
            &&& line.len() > 0 && line.last() == out.last()
            &&& !line.contains('\n')
        }),
{
    reveal_strlit(" | tr 'a-z' 'A-Z' | base32 -d > ");
    reveal_strlit("| tr 'a-z' 'A-Z' | base32 -d >");
    let mid = "| tr 'a-z' 'A-Z' | base32 -d >"@;
    lemma_cat_words(mid, file, out);
    assert(" | tr 'a-z' 'A-Z' | base32 -d > "@ =~= seq![' '] + mid + seq![' ']);
}

#[verifier::spinoff_prover]
proof fn lemma_bash_base16(file: Seq<char>, out: Seq<char>)
    requires
        is_word(file),
        is_word(out),
    ensures
        ({
            let line = decode_cmd_of(Encoding::Base16, file, out);
            &&& bash_decoding(line) == Some(decoding_for(Shell::Bash, Encoding::Base16, file, out))
            &&& line.len() > 0 && line.last() == out.last()
            &&& !line.contains('\n')
        }),
{
    reveal_strlit("cat ");
    reveal_strlit(" | tr 'a-z' 'A-Z' | base32 -d > ");
    reveal_strlit(" | tr 'a-z' 'A-Z' | xxd -r -p > ");
    reveal_strlit("| tr 'a-z' 'A-Z' | xxd -r -p >");
    let line = decode_cmd_of(Encoding::Base16, file, out);
    let mid = "| tr 'a-z' 'A-Z' | xxd -r -p >"@;
    lemma_cat_words(mid, file, out);
    assert(" | tr 'a-z' 'A-Z' | xxd -r -p > "@ =~= seq![' '] + mid + seq![' ']);
    let other = "cat "@ + file + " | tr 'a-z' 'A-Z' | base32 -d > "@ + out;
    assert(line[4 + file.len() as int + 20] == 'x');
    assert(other[4 + file.len() as int + 20] == 'b');
}

#[verifier::spinoff_prover]
proof fn lemma_bash_base64(file: Seq<char>, out: Seq<char>)
    requires
        is_word(file),
        is_word(out),
    ensures
        ({
            let line = decode_cmd_of(Encoding::Base64, file, out);
            &&& bash_decoding(line) == Some(decoding_for(Shell::Bash, Encoding::Base64, file, out))
            &&& line.len() > 0 && line.last() == out.last()
            &&& !line.contains('\n')
        }),
{
    reveal_strlit("cat ");
    reveal_strlit("base64 -d ");
    reveal_strlit("base64 -d");
    reveal_strlit("base64");
    reveal_strlit("-d");
    reveal_strlit(" > ");
    reveal_strlit(">");
    let line = decode_cmd_of(Encoding::Base64, file, out);
    let w = split(line, ' ');
    assert(line =~= "base64 -d"@ + seq![' '] + file + seq![' '] + (">"@ + seq![' '] + out));
    lemma_word_at("base64 -d"@, file, ">"@ + seq![' '] + out);
    assert("base64 -d"@ =~= "base64"@ + seq![' '] + "-d"@);
    lemma_split_at("base64"@, "-d"@, ' ');
    lemma_one_piece("base64"@, ' ');
    lemma_one_piece("-d"@, ' ');
    lemma_last_word(">"@, out);
    lemma_one_piece(">"@, ' ');
    assert(w[2] == file);
    assert(w.last() == out);
    assert(line[0] == 'b');
    assert(("cat "@ + w[1] + " | tr 'a-z' 'A-Z' | base32 -d > "@ + out)[0] == 'c');
    assert(("cat "@ + w[1] + " | tr 'a-z' 'A-Z' | xxd -r -p > "@ + out)[0] == 'c');
    lemma_add_lacks("base64 -d "@, file, '\n');
    lemma_add_lacks("base64 -d "@ + file, " > "@, '\n');
    lemma_add_lacks("base64 -d "@ + file + " > "@, out, '\n');
}

/// The words of a program with its two operands.
proof fn lemma_operands(program: Seq<char>, file: Seq<char>, out: Seq<char>)
    requires
        program.len() > 0,
        program.last() == ' ',
        !file.contains(' '),
        !out.contains(' '),
    ensures
        ({
            let w = split(program + file + " "@ + out, ' ');
            w.len() >= 3 && w[w.len() - 2] == file && w[w.len() - 1] == out
        }),
{
    reveal_strlit(" ");
    let p = program.drop_last();
    assert(program + file + " "@ + out =~= p + seq![' '] + file + seq![' '] + out);
    lemma_word_at(p, file, out);
    lemma_one_piece(out, ' ');
    lemma_split_len(p, ' ');
}

proof fn lemma_powershell_decodes(e: Encoding, file: Seq<char>, out: Seq<char>)
    requires
        is_word(file),
        is_word(out),
    ensures
        ({
            let line = decode_cmd_for_shell_of(Shell::Powershell, e, file, out);
            &&& powershell_decoding(line) == Some(decoding_for(Shell::Powershell, e, file, out))
            &&& line.len() > 0 && line[0] == 'p'
            &&& !line.contains('\n')
        }),
{
    let line = decode_cmd_for_shell_of(Shell::Powershell, e, file, out);
    reveal_strlit(" ");
    reveal_strlit(
        "python3 -c \"import sys,base64;open(sys.argv[2],'wb').write(base64.b32decode(open(sys.argv[1]).read().upper()))\" ",
    );
    reveal_strlit(
        "python3 -c \"import sys,base64;open(sys.argv[2],'wb').write(base64.b64decode(open(sys.argv[1]).read()))\" ",
    );
    reveal_strlit(
        "python3 -c \"import sys;data=open(sys.argv[1]).read().strip().upper();open(sys.argv[2],'wb').write(bytes.fromhex(data))\" ",
    );
    let p32 =
        "python3 -c \"import sys,base64;open(sys.argv[2],'wb').write(base64.b32decode(open(sys.argv[1]).read().upper()))\" "@;
    let p64 =
        "python3 -c \"import sys,base64;open(sys.argv[2],'wb').write(base64.b64decode(open(sys.argv[1]).read()))\" "@;
    let p16 =
        "python3 -c \"import sys;data=open(sys.argv[1]).read().strip().upper();open(sys.argv[2],'wb').write(bytes.fromhex(data))\" "@;
    let program = match e {
        Encoding::Base32 => p32,
        Encoding::Base64 => p64,
        Encoding::Base16 => p16,
    };
    lemma_operands(program, file, out);
    assert(line =~= program + file + " "@ + out);
    let operands = file + " "@ + out;
    assert(line =~= program + operands);
    assert(p32[67] == '3' && p64[67] == '6');
    assert(p32[22] == ',' && p64[22] == ',' && p16[22] == ';');
    assert(line[67] == program[67] && line[22] == program[22]);
    assert((p32 + operands)[67] == '3' && (p32 + operands)[22] == ',');
    assert((p64 + operands)[67] == '6' && (p64 + operands)[22] == ',');
    lemma_add_lacks(program, file, '\n');
    lemma_add_lacks(program + file, " "@, '\n');
    lemma_add_lacks(program + file + " "@, out, '\n');
}

/// The command that decodes a file reads that file and writes the other: in each shell and for each encoding
/// it decodes what the first holds, as the encoding asks for, into the second, and changes nothing else.
pub proof fn law_decode_command_decodes(
    shell: Shell,
    m: Machine,
    e: Encoding,
    file: Seq<char>,
    out: Seq<char>,
)
    requires
        m.open is None,
        is_word(file),
        is_word(out),
    ensures
        line_typed(shell, m, decode_cmd_for_shell_of(shell, e, file, out)) == decoding_run(
            m,
            decoding_for(shell, e, file, out),
        ),
        !decode_cmd_for_shell_of(shell, e, file, out).contains('\n'),
{
    match shell {
        Shell::Bash => {
            let line = decode_cmd_of(e, file, out);
            match e {
                Encoding::Base32 => {
                    lemma_bash_base32(file, out);
                },
                Encoding::Base64 => {
                    lemma_bash_base64(file, out);
                },
                Encoding::Base16 => {
                    lemma_bash_base16(file, out);
                },
            }
            lemma_not_open(line, out, split(line, ' ')[2]);
        },
        Shell::Powershell => {
            let line = decode_cmd_for_shell_of(shell, e, file, out);
            lemma_powershell_decodes(e, file, out);
            reveal_strlit("$content = @'");
            reveal_strlit("Set-Content -Path ");
            assert("$content = @'"@[0] == '$');
            let w = split(line, ' ');
            assert(("Set-Content -Path "@ + w[2] + " -Value $content -NoNewline"@)[0] == 'S');
        },
    }
}

// ---------------------------------------------------------------------------------------------
// What is typed
// ---------------------------------------------------------------------------------------------

/// What the steps of a plan type.
pub open spec fn typed_of(plan: Seq<StepView>) -> Seq<char>
    decreases plan.len(),
{
    if plan.len() == 0 {
        Seq::empty()
    } else {
        typed_of(plan.drop_last()) + match plan.last() {
            StepView::Command(s) => s,
            StepView::Text(t, w) => wrapped(t, w),
            _ => Seq::empty(),
        }
    }
}

proof fn lemma_typed_add(a: Seq<StepView>, b: Seq<StepView>)
    ensures
        typed_of(a + b) == typed_of(a) + typed_of(b),
    decreases b.len(),
{
    if b.len() == 0 {
        assert(a + b =~= a);
        assert(typed_of(a) + typed_of(b) =~= typed_of(a));
    } else {
        lemma_typed_add(a, b.drop_last());
        assert((a + b).drop_last() =~= a + b.drop_last());
        assert(typed_of(a + b) =~= typed_of(a) + typed_of(b));
    }
}

/// What has been typed to the end of a line has been carried out when more comes.
proof fn lemma_after_more(shell: Shell, m: Machine, a: Seq<char>, b: Seq<char>)
    requires
        a.len() == 0 || a.last() == '\n',
    ensures
        after(shell, m, a + b) == after(shell, after(shell, m, a), b),
{
    if a.len() == 0 {
        assert(a + b =~= b);
        lemma_one_piece(a, '\n');
        assert(seq![a].drop_last() =~= Seq::<Seq<char>>::empty());
        assert(after(shell, m, a) == m);
    } else {
        let c = a.drop_last();
        assert(a =~= c + seq!['\n']);
        lemma_after_add(shell, m, c, b);
    }
}

/// A line break at the end makes no difference without line breaks.
proof fn lemma_unwrapped_end(text: Seq<char>)
    ensures
        unwrapped(text + seq!['\n']) == unwrapped(text),
{
    let p = |c: char| c != '\n';
    Seq::filter_distributes_over_add(text, seq!['\n'], p);
    assert(seq!['\n'].filter(p) =~= Seq::<char>::empty()) by {
        reveal_with_fuel(Seq::filter, 2);
        assert(seq!['\n'].drop_last() =~= Seq::<char>::empty());
        assert(Seq::<char>::empty().filter(p) =~= Seq::<char>::empty());
        assert(!p(seq!['\n'].last()));
    }
    assert(unwrapped(text) + Seq::<char>::empty() =~= unwrapped(text));
}

/// An encoded text does not end the input that it is part of.
proof fn lemma_encoded_stays_open(e: Encoding, data: Seq<u8>)
    ensures
        stays_open(wrapped(e.chosen().text_of(data), WRAP_EVERY as nat)),
{
    let t = wrapped(e.chosen().text_of(data), WRAP_EVERY as nat);
    reveal_strlit("'@");
    reveal_strlit("EOF");
    if data.len() > 0 {
        lemma_encoded_lines(e, data);
        assert forall|i: int| 0 <= i < split(t, '\n').len() implies (#[trigger] split(t, '\n')[i]) != "EOF"@
            && split(t, '\n')[i] != "'@"@ by {
            assert("'@"@[0] == '\'');
        }
    } else {
        assert(data =~= Seq::empty());
        lemma_encoded_empty(alphabet(e));
        assert(e.chosen().text_of(data).len() == 0);
        lemma_one_piece(t, '\n');
    }
}

// ---------------------------------------------------------------------------------------------
// Deployment
// ---------------------------------------------------------------------------------------------

/// The name under which a script lands.
pub open spec fn script_file(target: Target) -> Seq<char> {
    match target {
        Target::Powershell => "typepaste-restore.ps1"@,
        _ => "typepaste-restore.sh"@,
    }
}

/// A name of these characters is one word.
proof fn lemma_is_word(s: Seq<char>)
    requires
        s.len() > 0,
        forall|i: int| 0 <= i < s.len() ==> is_safe(#[trigger] s[i]),
    ensures
        is_word(s),
{
    assert forall|c: char| s.contains(c) implies is_safe(c) by {
        let i = choose|i: int| 0 <= i < s.len() && s[i] == c;
        assert(is_safe(s[i]));
    }
}

proof fn lemma_script_names(target: Target, e: Encoding)
    ensures
        is_word(target.landing()),
        is_word(target.landing() + "."@ + e.chosen().ending()),
        target.landing() + "."@ + e.chosen().ending() != target.landing(),
        target.landing() == script_file(target),
{
    let landing = target.landing();
    let file = landing + "."@ + e.chosen().ending();
    reveal_strlit("typepaste-restore.ps1");
    reveal_strlit("typepaste-restore.sh");
    reveal_strlit(".");
    reveal_strlit("b32");
    reveal_strlit("b64");
    reveal_strlit("b16");
    lemma_is_word(landing);
    lemma_is_word(file);
    assert(file.len() == landing.len() + 4);
}

proof fn lemma_deploy_typed(target: Target, args: Args)
    ensures
        ({
            let e = delivery(args);
            let file = target.landing() + "."@ + e.chosen().ending();
            let text = e.chosen().text_of(encode_utf8(target.source()));
            typed_of(deploy_plan(target, args)) == heredoc_header_of(args.shell, file) + wrapped(
                text,
                WRAP_EVERY as nat,
            ) + heredoc_footer_of(args.shell, file) + (seq!['\n'] + decode_cmd_for_shell_of(
                args.shell,
                e,
                file,
                target.landing(),
            ) + seq!['\n'])
        }),
{
    reveal_strlit("\n");
    assert("\n"@ =~= seq!['\n']);
    let plan = deploy_plan(target, args);
    reveal_with_fuel(typed_of, 4);
    assert(plan.drop_last().drop_last().drop_last() =~= Seq::<StepView>::empty());
    let e = delivery(args);
    let file = target.landing() + "."@ + e.chosen().ending();
    let text = e.chosen().text_of(encode_utf8(target.source()));
    assert(typed_of(plan) =~= heredoc_header_of(args.shell, file) + wrapped(text, WRAP_EVERY as nat)
        + heredoc_footer_of(args.shell, file) + (seq!['\n'] + decode_cmd_for_shell_of(
        args.shell,
        e,
        file,
        target.landing(),
    ) + seq!['\n']));
}

/// What a file holds that a text was typed into.
pub open spec fn file_of(shell: Shell, text: Seq<char>) -> Seq<char> {
    match shell {
        Shell::Bash => wrapped(text, WRAP_EVERY as nat) + seq!['\n'],
        Shell::Powershell => wrapped(text, WRAP_EVERY as nat),
    }
}

/// The text is what the file holds, without the line breaks.
proof fn lemma_file_of(shell: Shell, text: Seq<char>)
    requires
        !text.contains('\n'),
    ensures
        unwrapped(file_of(shell, text)) == text,
{
    law_wrap_keeps_text(text, WRAP_EVERY as nat);
    lemma_unwrapped_end(wrapped(text, WRAP_EVERY as nat));
}

/// What is deployed runs: when the plan has been typed, the file under the name of the script holds the
/// script, byte for byte. The encoding is the one that was asked for, or Base 32. This is without Base 32 in
/// PowerShell, where Python does not pass over the line breaks.
pub proof fn law_deployed_script_lands(target: Target, args: Args, m: Machine)
    requires
        m.open is None,
        args.shell == Shell::Bash || args.encode == Some(Encoding::Base64) || args.encode == Some(
            Encoding::Base16,
        ),
    ensures
        ({
            let n = after(args.shell, m, typed_of(deploy_plan(target, args)));
            &&& n.data.dom().contains(script_file(target))
            &&& n.data[script_file(target)] == encode_utf8(target.source())
            &&& n.open is None
            &&& n.calls == m.calls
        }),
        delivery(args) == (match args.encode {
            Some(e) => e,
            None => Encoding::Base32,
        }),
{
    let e = delivery(args);
    let shell = args.shell;
    let landing = target.landing();
    let file = landing + "."@ + e.chosen().ending();
    let data = encode_utf8(target.source());
    let text = e.chosen().text_of(data);
    let typed = wrapped(text, WRAP_EVERY as nat);
    let a = heredoc_header_of(shell, file) + typed + heredoc_footer_of(shell, file);
    let cmd = decode_cmd_for_shell_of(shell, e, file, landing);
    let n1 = with_file(shell, m, file, typed);
    lemma_script_names(target, e);
    lemma_deploy_typed(target, args);
    lemma_encoded_stays_open(e, data);
    law_typed_text_becomes_file(shell, m, file, typed);
    lemma_ends_line(heredoc_header_of(shell, file) + typed, heredoc_footer_of(shell, file));
    lemma_after_more(shell, m, a, seq!['\n'] + cmd + seq!['\n']);
    lemma_after_command(shell, n1, e, file, landing);
    lemma_no_line_break(e, data);
    lemma_file_of(shell, text);
    law_far_end_decodes(e, data);
    assert(n1.texts[file] == file_of(shell, text));
    assert(decoding_of(decoding_for(shell, e, file, landing), file_of(shell, text)) == Some(data));
}

proof fn lemma_ends_line(a: Seq<char>, b: Seq<char>)
    requires
        ends(b, "\n"@),
    ensures
        (a + b).len() > 0,
        (a + b).last() == '\n',
{
    reveal_strlit("\n");
    assert(b.skip(b.len() - 1)[0] == '\n');
}

proof fn lemma_after_command(shell: Shell, m: Machine, e: Encoding, file: Seq<char>, out: Seq<char>)
    requires
        m.open is None,
        is_word(file),
        is_word(out),
    ensures
        after(shell, m, seq!['\n'] + decode_cmd_for_shell_of(shell, e, file, out) + seq!['\n'])
            == decoding_run(m, decoding_for(shell, e, file, out)),
{
    let cmd = decode_cmd_for_shell_of(shell, e, file, out);
    let none = Seq::<char>::empty();
    assert(seq!['\n'] + cmd + seq!['\n'] =~= none + seq!['\n'] + (cmd + seq!['\n']));
    lemma_after_add(shell, m, none, cmd + seq!['\n']);
    lemma_after_line(shell, m, none);
    lemma_empty_line(shell, m);
    law_decode_command_decodes(shell, m, e, file, out);
    lemma_after_line(shell, m, cmd);
}

proof fn lemma_empty_line(shell: Shell, m: Machine)
    requires
        m.open is None,
    ensures
        line_typed(shell, m, Seq::empty()) == m,
{
    reveal_strlit("$content = @'");
    lemma_one_piece(Seq::empty(), ' ');
}

// ---------------------------------------------------------------------------------------------
// Transfers
// ---------------------------------------------------------------------------------------------

/// The call of the script that was deployed, in each shell.
pub open spec fn script_call(shell: Shell) -> Seq<char> {
    match shell {
        Shell::Bash => "bash typepaste-restore.sh"@,
        Shell::Powershell => "powershell -File typepaste-restore.ps1"@,
    }
}

/// A call of the script is carried out as a call.
proof fn lemma_call(shell: Shell, m: Machine, tail: Seq<char>)
    requires
        m.open is None,
        !tail.contains('\n'),
    ensures
        after(shell, m, script_call(shell) + tail + seq!['\n']) == (Machine {
            calls: m.calls.push(script_call(shell) + tail),
            ..m
        }),
{
    let line = script_call(shell) + tail;
    let w = split(line, ' ');
    let o = w.last();
    match shell {
        Shell::Bash => {
            reveal_strlit("bash typepaste-restore.sh");
            reveal_strlit("cat > ");
            reveal_strlit("cat ");
            reveal_strlit("base64 -d ");
            assert(line[0] == 'b' && line[3] == 'h');
            assert(("cat > "@ + w[2] + " << 'EOF'"@)[0] == 'c');
            assert(("cat "@ + w[1] + " | tr 'a-z' 'A-Z' | base32 -d > "@ + o)[0] == 'c');
            assert(("cat "@ + w[1] + " | tr 'a-z' 'A-Z' | xxd -r -p > "@ + o)[0] == 'c');
            assert(("base64 -d "@ + w[2] + " > "@ + o)[3] == 'e');
            lemma_add_lacks("bash typepaste-restore.sh"@, tail, '\n');
        },
        Shell::Powershell => {
            reveal_strlit("powershell -File typepaste-restore.ps1");
            reveal_strlit("$content = @'");
            reveal_strlit("Set-Content -Path ");
            reveal_strlit(
                "python3 -c \"import sys,base64;open(sys.argv[2],'wb').write(base64.b32decode(open(sys.argv[1]).read().upper()))\" ",
            );
            reveal_strlit(
                "python3 -c \"import sys,base64;open(sys.argv[2],'wb').write(base64.b64decode(open(sys.argv[1]).read()))\" ",
            );
            reveal_strlit(
                "python3 -c \"import sys;data=open(sys.argv[1]).read().strip().upper();open(sys.argv[2],'wb').write(bytes.fromhex(data))\" ",
            );
            let p32 =
                "python3 -c \"import sys,base64;open(sys.argv[2],'wb').write(base64.b32decode(open(sys.argv[1]).read().upper()))\" "@;
            let p64 =
                "python3 -c \"import sys,base64;open(sys.argv[2],'wb').write(base64.b64decode(open(sys.argv[1]).read()))\" "@;
            let p16 =
                "python3 -c \"import sys;data=open(sys.argv[1]).read().strip().upper();open(sys.argv[2],'wb').write(bytes.fromhex(data))\" "@;
            let operands = w[w.len() - 2] + " "@ + w[w.len() - 1];
            assert(line[0] == 'p' && line[1] == 'o');
            assert("$content = @'"@[0] == '$');
            assert(("Set-Content -Path "@ + w[2] + " -Value $content -NoNewline"@)[0] == 'S');
            assert((p32 + operands)[1] == 'y');
            assert((p64 + operands)[1] == 'y');
            assert((p16 + operands)[1] == 'y');
            lemma_add_lacks("powershell -File typepaste-restore.ps1"@, tail, '\n');
        },
    }
    lemma_after_line(shell, m, line);
}

/// The steps of a file type it.
proof fn lemma_file_typed(shell: Shell, file: Seq<char>, text: Seq<char>)
    ensures
        typed_of(file_steps(shell, file, text)) == heredoc_header_of(shell, file) + wrapped(
            text,
            WRAP_EVERY as nat,
        ) + heredoc_footer_of(shell, file),
{
    let steps = file_steps(shell, file, text);
    reveal_with_fuel(typed_of, 4);
    assert(steps.drop_last().drop_last().drop_last() =~= Seq::<StepView>::empty());
    assert(typed_of(steps) =~= heredoc_header_of(shell, file) + wrapped(text, WRAP_EVERY as nat)
        + heredoc_footer_of(shell, file));
}

/// The suffixes of a name leave it one word.
proof fn lemma_name_is_word(p: Payload, s: Source)
    requires
        p.is_from(s),
        is_word(s.uid),
    ensures
        is_word(p.uid_full@),
{
    law_name_tells_all(p, s);
    reveal_strlit("");
    reveal_strlit(".zip");
    reveal_strlit(".gz");
    reveal_strlit(".b32");
    reveal_strlit(".b64");
    reveal_strlit(".b16");
    let uid = p.uid_full@;
    let tail = uid.skip(s.uid.len() as int);
    assert(uid =~= s.uid + tail);
    assert forall|i: int| 0 <= i < tail.len() implies is_safe(#[trigger] tail[i]) by {}
    if tail.len() > 0 {
        lemma_is_word(tail);
    }
    lemma_add_lacks(s.uid, tail, ' ');
    lemma_add_lacks(s.uid, tail, '\n');
    lemma_add_lacks(s.uid, tail, '"');
    lemma_add_lacks(s.uid, tail, '\'');
}

/// What is sent in one piece arrives: when the plan has been typed, the file under the name of the transfer
/// holds a text that restores the data, as the name says, and the deployed script is called last, with that
/// name and the digest of the data. The base of the name is one word that does not end in `.gz` where
/// nothing was compressed, and `md5_hex` is a digest.
pub proof fn law_transfer_lands(p: Payload, s: Source, args: Args, m: Machine)
    requires
        p.is_from(s),
        p.encoding is Some,
        p.parts is None,
        gunzipped(s.gz) == Some(s.raw),
        !s.is_dir && !s.compressed() ==> !ends(s.uid, ".gz"@),
        is_word(s.uid),
        digest_shaped(md5_hex(s.raw)),
        args.restore_script is None,
        m.open is None,
    ensures
        plan_of(p, args) is Ok,
        ({
            let n = after(args.shell, m, typed_of(plan_of(p, args)->Ok_0));
            &&& n.texts.dom().contains(p.uid_full@)
            &&& restored(ops_of(p.uid_full@), unwrapped(n.texts[p.uid_full@])) == Some(s.raw)
            &&& n.calls == m.calls.push(script_call(args.shell) + " "@ + p.uid_full@ + " "@ + md5_hex(s.raw))
            &&& n.open is None
        }),
{
    let e = p.encoding->0;
    let shell = args.shell;
    let uid = p.uid_full@;
    let text = p.encoded->0@;
    let typed = wrapped(text, WRAP_EVERY as nat);
    let md5 = md5_hex(s.raw);
    lemma_name_is_word(p, s);
    let files = file_steps(shell, uid, text);
    let tail = " "@ + uid + " "@ + md5;
    let call = invoke_of(args, uid, p.local_md5@, None);
    reveal_strlit(" ");
    reveal_strlit("\n");
    assert(call =~= script_call(shell) + tail);
    assert(call + "\n"@ =~= script_call(shell) + tail + seq!['\n']);
    let last = seq![StepView::Pause(CMD_SLEEP_MS as nat), StepView::Command(call + "\n"@)];
    lemma_typed_add(files, last);
    assert(typed_of(last) =~= script_call(shell) + tail + seq!['\n']) by {
        reveal_with_fuel(typed_of, 3);
        assert(last.drop_last().drop_last() =~= Seq::<StepView>::empty());
    }
    lemma_file_typed(shell, uid, text);
    lemma_encoded_stays_open(e, s.body());
    law_typed_text_becomes_file(shell, m, uid, typed);
    lemma_ends_line(heredoc_header_of(shell, uid) + typed, heredoc_footer_of(shell, uid));
    lemma_after_more(shell, m, typed_of(files), typed_of(last));
    lemma_digest_tail(uid, md5);
    lemma_call(shell, with_file(shell, m, uid, typed), tail);
    lemma_no_line_break(e, s.body());
    lemma_file_of(shell, text);
    law_transfer_arrives(p, s);
    law_wrap_keeps_text(text, WRAP_EVERY as nat);
    assert(call =~= script_call(shell) + " "@ + uid + " "@ + md5);
}

proof fn lemma_digest_tail(uid: Seq<char>, md5: Seq<char>)
    requires
        !uid.contains('\n'),
        digest_shaped(md5),
    ensures
        !(" "@ + uid + " "@ + md5).contains('\n'),
{
    reveal_strlit(" ");
    lemma_digest_lacks(md5, '\n');
    lemma_add_lacks(" "@, uid, '\n');
    lemma_add_lacks(" "@ + uid, " "@, '\n');
    lemma_add_lacks(" "@ + uid + " "@, md5, '\n');
}

proof fn lemma_digest_lacks(md5: Seq<char>, c: char)
    requires
        digest_shaped(md5),
        !is_lower_hex(c),
    ensures
        !md5.contains(c),
{
    if md5.contains(c) {
        let i = choose|i: int| 0 <= i < md5.len() && md5[i] == c;
        assert(is_lower_hex(md5[i]));
    }
}

/// The names of different parts are different.
proof fn lemma_part_names(uid: Seq<char>, a: usize, b: usize)
    ensures
        part_uid(uid, a as nat) == part_uid(uid, b as nat) ==> a == b,
{
    let n = uid.len() as int + ".p"@.len() as int;
    let x = part_uid(uid, a as nat);
    let y = part_uid(uid, b as nat);
    assert(x.skip(n) =~= dec(a as nat));
    assert(y.skip(n) =~= dec(b as nat));
    law_dec_parses(a as nat);
    law_dec_parses(b as nat);
}

proof fn lemma_part_is_word(uid: Seq<char>, n: nat)
    requires
        is_word(uid),
    ensures
        is_word(part_uid(uid, n)),
{
    reveal_strlit(".p");
    lemma_dec(n);
    let d = dec(n);
    let tail = ".p"@ + d;
    assert forall|i: int| 0 <= i < tail.len() implies is_safe(#[trigger] tail[i]) by {
        if i >= 2 {
            assert(is_digit(d[i - 2]));
        }
    }
    lemma_is_word(tail);
    assert(part_uid(uid, n) =~= uid + tail);
    lemma_add_lacks(uid, tail, ' ');
    lemma_add_lacks(uid, tail, '\n');
    lemma_add_lacks(uid, tail, '"');
    lemma_add_lacks(uid, tail, '\'');
}

/// Whether the parts can be typed: each text of a part stays open.
pub open spec fn parts_stay_open(p: Payload) -> bool {
    forall|k: int|
        0 <= k < p.parts->0.total ==> stays_open(
            wrapped((#[trigger] p.parts->0.encoded_parts@[k])@, WRAP_EVERY as nat),
        )
}

/// The parts can be typed where the encoding is not Base 64.
pub proof fn law_parts_stay_open(p: Payload, s: Source)
    requires
        p.is_from(s),
        p.parts is Some,
        p.encoding != Some(Encoding::Base64),
    ensures
        parts_stay_open(p),
{
    reveal_strlit("'@");
    assert("'@"@[0] == '\'');
    assert forall|k: int| 0 <= k < p.parts->0.total implies stays_open(
        wrapped((#[trigger] p.parts->0.encoded_parts@[k])@, WRAP_EVERY as nat),
    ) by {
        law_part_input_stays_open(p, s, k);
    }
}

/// After some parts have been typed, each is in its file.
proof fn lemma_parts_land(p: Payload, args: Args, m: Machine, v: Seq<usize>)
    requires
        p.wf(),
        p.parts is Some,
        is_word(p.uid_full@),
        parts_stay_open(p),
        m.open is None,
        forall|k: int| 0 <= k < v.len() ==> 1 <= #[trigger] v[k] <= p.parts->0.total,
        forall|i: int, j: int| 0 <= i < j < v.len() ==> (#[trigger] v[i]) != (#[trigger] v[j]),
    ensures
        ({
            let typed = typed_of(parts_steps(p, args, v));
            let n = after(args.shell, m, typed);
            &&& typed.len() == 0 || typed.last() == '\n'
            &&& n.open is None
            &&& n.calls == m.calls
            &&& forall|k: int|
                0 <= k < v.len() ==> {
                    let file = part_uid(p.uid_full@, (#[trigger] v[k]) as nat);
                    n.texts.dom().contains(file) && n.texts[file] == file_of(
                        args.shell,
                        p.parts->0.encoded_parts@[v[k] - 1]@,
                    )
                }
        }),
    decreases v.len(),
{
    let shell = args.shell;
    let uid = p.uid_full@;
    if v.len() == 0 {
        let none = typed_of(parts_steps(p, args, v));
        assert(none =~= Seq::empty());
        lemma_after_more(shell, m, none, none);
        lemma_one_piece(none, '\n');
        assert(seq![none].drop_last() =~= Seq::<Seq<char>>::empty());
    } else {
        let head = v.drop_last();
        let last = v.last();
        assert(last == v[v.len() - 1]);
        assert forall|k: int| 0 <= k < head.len() implies 1 <= #[trigger] head[k] <= p.parts->0.total by {
            assert(head[k] == v[k]);
        }
        assert forall|i: int, j: int| 0 <= i < j < head.len() implies (#[trigger] head[i]) != (
        #[trigger] head[j]) by {
            assert(head[i] == v[i] && head[j] == v[j]);
        }
        lemma_parts_land(p, args, m, head);
        let n1 = after(shell, m, typed_of(parts_steps(p, args, head)));
        let file = part_uid(uid, last as nat);
        let text = p.parts->0.encoded_parts@[last - 1]@;
        let w = wrapped(text, WRAP_EVERY as nat);
        lemma_part_typed(p, args, last);
        lemma_part_is_word(uid, last as nat);
        assert(stays_open(w));
        law_typed_text_becomes_file(shell, n1, file, w);
        lemma_ends_line(heredoc_header_of(shell, file) + w, heredoc_footer_of(shell, file));
        lemma_typed_add(parts_steps(p, args, head), part_steps(p, args, last));
        lemma_after_more(
            shell,
            m,
            typed_of(parts_steps(p, args, head)),
            typed_of(part_steps(p, args, last)),
        );
        let n = with_file(shell, n1, file, w);
        assert forall|k: int| 0 <= k < v.len() implies {
            let f = part_uid(uid, (#[trigger] v[k]) as nat);
            n.texts.dom().contains(f) && n.texts[f] == file_of(shell, p.parts->0.encoded_parts@[v[k] - 1]@)
        } by {
            if k < head.len() {
                assert(head[k] == v[k]);
                assert(v[k] != v[v.len() - 1]);
                lemma_part_names(uid, v[k], last);
            }
        }
    }
}

proof fn lemma_part_typed(p: Payload, args: Args, n: usize)
    ensures
        ({
            let file = part_uid(p.uid_full@, n as nat);
            typed_of(part_steps(p, args, n)) == heredoc_header_of(args.shell, file) + wrapped(
                p.parts->0.encoded_parts@[n - 1]@,
                WRAP_EVERY as nat,
            ) + heredoc_footer_of(args.shell, file)
        }),
{
    let i = p.parts->0;
    let file = part_uid(p.uid_full@, n as nat);
    let text = i.encoded_parts@[n - 1]@;
    let note = seq![StepView::Note("p"@ + dec(n as nat) + " >>> md5="@ + i.part_md5s@[n - 1]@)];
    let files = file_steps(args.shell, file, text);
    let wait = seq![StepView::Pause(CMD_SLEEP_MS as nat)];
    lemma_typed_add(note + files, wait);
    lemma_typed_add(note, files);
    lemma_file_typed(args.shell, file, text);
    reveal_with_fuel(typed_of, 2);
    assert(note.drop_last() =~= Seq::<StepView>::empty());
    assert(wait.drop_last() =~= Seq::<StepView>::empty());
    assert(typed_of(note) =~= Seq::empty());
    assert(typed_of(wait) =~= Seq::empty());
    assert(typed_of(part_steps(p, args, n)) =~= typed_of(files));
}

/// The stretch of the encoded text for a part, counted from one.
pub open spec fn stretch_of(p: Payload, s: Source, n: int) -> Seq<char> {
    let size = if s.part_size->0 == 0 {
        1
    } else {
        s.part_size->0 as int
    };
    let text = p.encoded->0@;
    text.subrange(
        (n - 1) * size,
        if n < p.parts->0.total {
            (n - 1) * size + size
        } else {
            text.len() as int
        },
    )
}

proof fn lemma_joined_lacks(v: Seq<Seq<char>>, sep: Seq<char>, c: char)
    requires
        !sep.contains(c),
        forall|i: int| 0 <= i < v.len() ==> !(#[trigger] v[i]).contains(c),
    ensures
        !joined(v, sep).contains(c),
    decreases v.len(),
{
    if v.len() > 1 {
        let head = v.drop_last();
        assert forall|i: int| 0 <= i < head.len() implies !(#[trigger] head[i]).contains(c) by {
            assert(head[i] == v[i]);
        }
        lemma_joined_lacks(head, sep, c);
        assert(!v[v.len() - 1].contains(c));
        lemma_add_lacks(joined(head, sep), sep, c);
        lemma_add_lacks(joined(head, sep) + sep, v.last(), c);
    } else if v.len() == 1 {
        assert(!v[0].contains(c));
    }
}

/// What is sent in parts lands: when the plan has been typed, the file of each part that was to be sent holds
/// the stretch of the encoded text for that part, and the deployed script is called last, with the name of the
/// transfer, the digest of the data, and the digests of all parts in order. The base of the name is one word,
/// `md5_hex` is a digest, and no line of a part ends its input.
pub proof fn law_parts_land(p: Payload, s: Source, args: Args, m: Machine)
    requires
        p.is_from(s),
        p.wf(),
        p.parts is Some,
        is_word(s.uid),
        parts_stay_open(p),
        forall|d: Seq<u8>| digest_shaped(#[trigger] md5_hex(d)),
        args.restore_script is None,
        m.open is None,
        parts_to_send_of(p.parts->0.total, text_view(args.only_parts), text_view(args.skip_parts)) is Ok,
    ensures
        plan_of(p, args) is Ok,
        ({
            let v = parts_to_send_of(
                p.parts->0.total,
                text_view(args.only_parts),
                text_view(args.skip_parts),
            )->Ok_0;
            let n = after(args.shell, m, typed_of(plan_of(p, args)->Ok_0));
            &&& forall|k: int|
                0 <= k < v.len() ==> {
                    let file = part_uid(p.uid_full@, (#[trigger] v[k]) as nat);
                    &&& 1 <= v[k] <= p.parts->0.total
                    &&& n.texts.dom().contains(file)
                    &&& unwrapped(n.texts[file]) == stretch_of(p, s, v[k] as int)
                }
            &&& n.calls == m.calls.push(
                script_call(args.shell) + " "@ + p.uid_full@ + " "@ + md5_hex(s.raw) + " "@ + joined(
                    Seq::new(
                        p.parts->0.total as nat,
                        |k: int| md5_hex(encode_utf8(stretch_of(p, s, k + 1))),
                    ),
                    ","@,
                ),
            )
            &&& n.open is None
        }),
{
    let i = p.parts->0;
    let shell = args.shell;
    let uid = p.uid_full@;
    let v = parts_to_send_of(i.total, text_view(args.only_parts), text_view(args.skip_parts))->Ok_0;
    lemma_name_is_word(p, s);
    lemma_sent_in_order(i.total, text_view(args.only_parts), text_view(args.skip_parts));
    lemma_parts_land(p, args, m, v);
    let files = parts_steps(p, args, v);
    let n1 = after(shell, m, typed_of(files));
    let sums = texts(i.part_md5s@);
    let expected = Seq::new(i.total as nat, |k: int| md5_hex(encode_utf8(stretch_of(p, s, k + 1))));
    assert(sums.len() == i.part_md5s@.len());
    assert forall|k: int| 0 <= k < i.total implies sums[k] == #[trigger] expected[k] by {
        law_part_is_its_stretch(p, s, k + 1);
        assert(sums[k] == i.part_md5s@[k]@);
    }
    assert(sums =~= expected);
    let list = joined(sums, ","@);
    let tail = " "@ + uid + " "@ + md5_hex(s.raw) + " "@ + list;
    let call = join_command(p, args);
    reveal_strlit(" ");
    reveal_strlit(",");
    reveal_strlit("\n");
    assert(call =~= script_call(shell) + tail);
    let last = seq![StepView::Command(call + "\n"@)];
    assert(typed_of(last) =~= script_call(shell) + tail + seq!['\n']) by {
        reveal_with_fuel(typed_of, 2);
        assert(last.drop_last() =~= Seq::<StepView>::empty());
    }
    lemma_typed_add(files, last);
    lemma_after_more(shell, m, typed_of(files), typed_of(last));
    assert(!tail.contains('\n')) by {
        lemma_digest_tail(uid, md5_hex(s.raw));
        assert forall|k: int| 0 <= k < sums.len() implies !(#[trigger] sums[k]).contains('\n') by {
            assert(sums[k] == expected[k]);
            lemma_digest_lacks(expected[k], '\n');
        }
        lemma_joined_lacks(sums, ","@, '\n');
        lemma_add_lacks(" "@ + uid + " "@ + md5_hex(s.raw), " "@, '\n');
        lemma_add_lacks(" "@ + uid + " "@ + md5_hex(s.raw) + " "@, list, '\n');
    }
    lemma_call(shell, n1, tail);
    let n = Machine { calls: n1.calls.push(script_call(shell) + tail), ..n1 };
    assert forall|k: int| 0 <= k < v.len() implies {
        let file = part_uid(uid, (#[trigger] v[k]) as nat);
        &&& 1 <= v[k] <= i.total
        &&& n.texts.dom().contains(file)
        &&& unwrapped(n.texts[file]) == stretch_of(p, s, v[k] as int)
    } by {
        law_part_is_its_stretch(p, s, v[k] as int);
        let part = i.encoded_parts@[v[k] - 1]@;
        assert(part == stretch_of(p, s, v[k] as int));
        lemma_part_lacks_break(p, s, v[k] as int);
        lemma_file_of(shell, part);
    }
    assert(script_call(shell) + tail =~= script_call(shell) + " "@ + uid + " "@ + md5_hex(s.raw) + " "@
        + list);
}

proof fn lemma_part_lacks_break(p: Payload, s: Source, n: int)
    requires
        p.is_from(s),
        p.parts is Some,
        1 <= n <= p.parts->0.total,
    ensures
        !stretch_of(p, s, n).contains('\n'),
{
    law_part_is_its_stretch(p, s, n);
    assert(s.forced());
    lemma_no_line_break(p.encoding->0, s.body());
    let t = p.encoded->0@;
    let part = stretch_of(p, s, n);
    if part.contains('\n') {
        let k = choose|k: int| 0 <= k < part.len() && part[k] == '\n';
        let size = if s.part_size->0 == 0 {
            1
        } else {
            s.part_size->0 as int
        };
        assert(t[(n - 1) * size + k] == '\n');
    }
}

/// The parts that are sent are parts of the transfer, each once.
proof fn lemma_sent_in_order(total: usize, only: Option<Seq<char>>, skip: Option<Seq<char>>)
    ensures
        parts_to_send_of(total, only, skip) matches Ok(v) ==> {
            &&& forall|k: int| 0 <= k < v.len() ==> 1 <= #[trigger] v[k] <= total
            &&& forall|i: int, j: int| 0 <= i < j < v.len() ==> (#[trigger] v[i]) != (#[trigger] v[j])
        },
{
    if let Ok(v) = parts_to_send_of(total, only, skip) {
        let (set, want) = choose|set: Set<usize>, want: bool|
            v == #[trigger] crate::parts::picked(total as nat, set, want);
        crate::parts::law_picked_in_order(total, set, want);
        assert forall|k: int| 0 <= k < v.len() implies 1 <= #[trigger] v[k] <= total by {
            assert(v.contains(v[k]));
        }
    }
}

/// What is sent in parts arrives: where none is left out, the files of the parts, in the order of their
/// numbers and without line breaks, make up a text that restores the data as the name of the transfer says.
pub proof fn law_parts_restore(p: Payload, s: Source, args: Args, m: Machine)
    requires
        p.is_from(s),
        p.wf(),
        p.parts is Some,
        is_word(s.uid),
        parts_stay_open(p),
        forall|d: Seq<u8>| digest_shaped(#[trigger] md5_hex(d)),
        args.restore_script is None,
        args.only_parts is None,
        args.skip_parts is None,
        gunzipped(s.gz) == Some(s.raw),
        !s.is_dir && !s.compressed() ==> !ends(s.uid, ".gz"@),
        m.open is None,
    ensures
        plan_of(p, args) is Ok,
        ({
            let n = after(args.shell, m, typed_of(plan_of(p, args)->Ok_0));
            let found = Seq::new(
                p.parts->0.total as nat,
                |k: int| unwrapped(n.texts[part_uid(p.uid_full@, (k + 1) as nat)]),
            );
            restored(ops_of(p.uid_full@), concat(found)) == Some(s.raw)
        }),
{
    let i = p.parts->0;
    law_all_parts_by_default(i.total);
    law_parts_land(p, s, args, m);
    let v = parts_to_send_of(i.total, None, None)->Ok_0;
    let n = after(args.shell, m, typed_of(plan_of(p, args)->Ok_0));
    let found = Seq::new(
        i.total as nat,
        |k: int| unwrapped(n.texts[part_uid(p.uid_full@, (k + 1) as nat)]),
    );
    let parts = texts(i.encoded_parts@);
    assert forall|k: int| 0 <= k < i.total implies found[k] == #[trigger] parts[k] by {
        assert(v[k] == k + 1);
        law_part_is_its_stretch(p, s, k + 1);
        assert(parts[k] == i.encoded_parts@[k]@);
    }
    assert(found =~= parts);
    assert(s.forced());
    law_parts_make_whole(p.encoded->0@, piece_size(s.part_size->0));
    law_transfer_arrives(p, s);
    lemma_no_line_break(p.encoding->0, s.body());
    law_wrap_keeps_text(p.encoded->0@, WRAP_EVERY as nat);
}

/// A dry run shows what would be typed, to the letter, as long as no text has more than 500 characters.
pub proof fn law_dry_run_shows_what_is_typed(plan: Seq<StepView>)
    requires
        forall|i: int| 0 <= i < plan.len() ==> ((#[trigger] plan[i]) matches StepView::Text(t, _) ==> t.len() <= 500),
    ensures
        shown(plan) == typed_of(plan),
    decreases plan.len(),
{
    if plan.len() > 0 {
        let init = plan.drop_last();
        assert forall|i: int| 0 <= i < init.len() implies ((#[trigger] init[i]) matches StepView::Text(t, _)
            ==> t.len() <= 500) by {
            assert(init[i] == plan[i]);
        }
        law_dry_run_shows_what_is_typed(init);
        assert(plan[plan.len() - 1] == plan.last());
    }
}

} // verus!
