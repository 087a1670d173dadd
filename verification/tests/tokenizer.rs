use pengui_redn::{tokenize, Tokenizer, UNK_ID};

fn sample_tokenizer() -> Tokenizer {
    Tokenizer::new("hola mundo hola", 8192)
}

#[test]
fn new_lists_specials_chars_then_words() {
    let tok = sample_tokenizer();
    assert_eq!(tok.vocab_size(), 12);
    assert_eq!(
        tok.vocab_text(),
        "<PAD>\n<UNK>\na\nd\nh\nl\nm\nn\no\nu\nhola\nmundo"
    );
}

#[test]
fn new_orders_words_by_frequency() {
    let tok = Tokenizer::new("aa bb bb", 8192);
    assert_eq!(tok.vocab_text(), "<PAD>\n<UNK>\na\nb\nbb\naa");
    assert_eq!(tok.encode("aa bb"), vec![5, 4]);
}

#[test]
fn new_breaks_frequency_ties_by_first_occurrence() {
    let tok = Tokenizer::new("cc bb cc bb aa", 8192);
    assert_eq!(tok.vocab_text(), "<PAD>\n<UNK>\na\nb\nc\ncc\nbb\naa");
    assert_eq!(tok.encode("aa bb cc"), vec![7, 6, 5]);
}

#[test]
fn new_stops_at_vocab_size() {
    let tok = Tokenizer::new("aa bb bb", 5);
    assert_eq!(tok.vocab_size(), 5);
    assert_eq!(tok.vocab_text(), "<PAD>\n<UNK>\na\nb\nbb");
    assert_eq!(tok.encode("aa"), vec![2, 2]);
    assert_eq!(tok.decode(&[2, 2]), "aa");
}

#[test]
fn new_keeps_every_character_below_a_small_vocab_size() {
    let tok = Tokenizer::new("aa bb bb", 3);
    assert_eq!(tok.vocab_size(), 4);
    assert_eq!(tok.vocab_text(), "<PAD>\n<UNK>\na\nb");
}

#[test]
fn new_on_empty_text_has_only_specials() {
    let tok = Tokenizer::new("", 8192);
    assert_eq!(tok.vocab_size(), 2);
    assert_eq!(tok.encode("   "), Vec::<u32>::new());
    assert_eq!(tok.encode("z"), vec![UNK_ID]);
}

#[test]
fn single_character_words_stay_character_tokens() {
    let tok = Tokenizer::new("a b a", 8192);
    assert_eq!(tok.vocab_size(), 4);
    assert_eq!(tok.encode("a b"), vec![2, 3]);
    assert_eq!(tok.decode(&[2, 3]), "ab");
}

#[test]
fn the_word_unk_in_the_text_gets_the_unknown_id() {
    let tok = Tokenizer::new("<UNK> x", 8192);
    assert_eq!(tok.vocab_text(), "<PAD>\n<UNK>\n<\n>\nK\nN\nU\nx");
    assert_eq!(tok.encode("<UNK>"), vec![1]);
}

#[test]
fn encode_known_words() {
    let tok = sample_tokenizer();
    assert_eq!(tok.encode("hola mundo"), vec![10, 11]);
    assert_eq!(tok.encode("  mundo\n\thola  "), vec![11, 10]);
}

#[test]
fn encode_spells_unknown_words() {
    let tok = sample_tokenizer();
    assert_eq!(tok.encode("mal"), vec![6, 2, 5]);
    assert_eq!(tok.encode("hola xyz"), vec![10, UNK_ID, UNK_ID, UNK_ID]);
}

#[test]
fn decode_glues_character_ids_and_spaces_the_rest() {
    let tok = sample_tokenizer();
    assert_eq!(tok.decode(&[10, 11]), "hola mundo");
    assert_eq!(tok.decode(&[6, 2, 5]), "mal");
    assert_eq!(tok.decode(&[10, 6, 2, 5, 11]), "hola mal mundo");
    assert_eq!(tok.decode(&[0, 1]), "<PAD> <UNK>");
    assert_eq!(tok.decode(&[1, 2, 1]), "<UNK> a <UNK>");
    assert_eq!(tok.decode(&[]), "");
}

#[test]
fn decode_after_encode_gives_the_words_back() {
    let tok = sample_tokenizer();
    let ids = tok.encode("  hola\tmundo  hola ");
    assert_eq!(tok.decode(&ids), "hola mundo hola");
}

#[test]
fn encode_after_decode_gives_the_ids_back() {
    let tok = sample_tokenizer();
    let ids = vec![11, 10, 11];
    assert_eq!(tok.encode(&tok.decode(&ids)), ids);
}

#[test]
fn training_text_encodes_without_unknown() {
    let text = "el perro y el gato, el fin.";
    let tok = Tokenizer::new(text, 8192);
    let ids = tok.encode(text);
    assert!(!ids.is_empty());
    assert!(ids.iter().all(|&id| id != UNK_ID));
    assert!(ids.iter().all(|&id| (id as usize) < tok.vocab_size()));
}

#[test]
fn vocab_size_is_bounded() {
    let text = "uno dos tres cuatro cinco seis siete ocho nueve diez";
    let tok = Tokenizer::new(text, 20);
    assert!(tok.vocab_size() <= 20);
    let tok = Tokenizer::new(text, 1);
    assert_eq!(tok.vocab_size(), 2 + 14);
}

#[test]
fn vocab_text_reads_back_to_the_same_tokenizer() {
    let tok = Tokenizer::new("hola mundo hola, que tal mundo", 8192);
    let back = Tokenizer::from_vocab_text(&tok.vocab_text());
    assert_eq!(back.vocab_size(), tok.vocab_size());
    assert_eq!(back.vocab_text(), tok.vocab_text());
    let ids = tok.encode("hola que mal");
    assert_eq!(back.encode("hola que mal"), ids);
    assert_eq!(back.decode(&ids), tok.decode(&ids));
}

#[test]
fn from_vocab_text_finds_the_character_boundary() {
    let tok = Tokenizer::from_vocab_text("<PAD>\n<UNK>\na\nb\nab\nc");
    assert_eq!(tok.vocab_size(), 6);
    assert_eq!(tok.decode(&[2, 3, 5]), "ab c");
    assert_eq!(tok.decode(&[5, 5]), "c c");
}

#[test]
fn from_vocab_text_handles_crlf_and_short_files() {
    let tok = Tokenizer::from_vocab_text("a\r\nb\n");
    assert_eq!(tok.vocab_size(), 2);
    assert_eq!(tok.vocab_text(), "a\nb");
    let tok = Tokenizer::from_vocab_text("x");
    assert_eq!(tok.vocab_size(), 1);
    assert_eq!(tok.decode(&[0, 0]), "x x");
    let tok = Tokenizer::from_vocab_text("");
    assert_eq!(tok.vocab_size(), 0);
}

#[test]
fn from_vocab_text_later_duplicate_wins() {
    let tok = Tokenizer::from_vocab_text("<PAD>\n<UNK>\nhola\nhola");
    assert_eq!(tok.encode("hola"), vec![3]);
}

#[test]
fn tokenize_splits_on_unicode_whitespace() {
    assert_eq!(tokenize("uno\u{3000}dos\u{a0}tres"), vec!["uno", "dos", "tres"]);
    assert_eq!(tokenize("  a  b\t\nc "), vec!["a", "b", "c"]);
    assert_eq!(tokenize(""), Vec::<String>::new());
    assert_eq!(tokenize(" \n\t "), Vec::<String>::new());
    assert_eq!(tokenize("¿Qué?"), vec!["¿Qué?"]);
}

#[test]
fn tokenize_of_joined_words_gives_them_back() {
    let words = vec!["hola", "¿qué", "tal?", "x"];
    assert_eq!(tokenize(&words.join(" ")), words);
}

#[test]
fn learnt_vocabulary_has_no_token_twice() {
    let text = "a aa a aa b bb <PAD> <UNK> aa ab ba ab b";
    let tok = Tokenizer::new(text, 8192);
    let vocab = tok.vocab_text();
    let lines: Vec<&str> = vocab.lines().collect();
    assert_eq!(lines.len(), tok.vocab_size());
    for i in 0..lines.len() {
        for j in 0..lines.len() {
            if i != j {
                assert_ne!(lines[i], lines[j]);
            }
        }
    }
    assert_eq!(lines[0], "<PAD>");
    assert_eq!(lines[1], "<UNK>");
    assert_eq!(
        lines,
        vec!["<PAD>", "<UNK>", "<", ">", "A", "D", "K", "N", "P", "U", "a", "b", "aa", "ab", "bb", "ba"]
    );
}

#[test]
fn new_accepts_any_vocab_size() {
    let tok = Tokenizer::new("hola", usize::MAX);
    assert_eq!(tok.vocab_size(), 7);
    assert_eq!(tok.vocab_text(), "<PAD>\n<UNK>\na\nh\nl\no\nhola");
}

#[test]
fn round_trip_spells_words_from_known_characters() {
    let tok = Tokenizer::new("hola mundo", 8192);
    let ids = tok.encode("hola mal");
    assert_eq!(ids, vec![10, 6, 2, 5]);
    assert_eq!(tok.decode(&ids), "hola mal");
}

#[test]
fn round_trip_keeps_one_letter_words() {
    let tok = Tokenizer::new("y hola y", 8192);
    let ids = tok.encode("hola y hola");
    assert_eq!(tok.decode(&ids), "hola y hola");
}

#[test]
fn two_spelled_words_in_a_row_come_back_glued() {
    let tok = Tokenizer::new("hola mundo", 8192);
    let ids = tok.encode("mano dado");
    assert_eq!(tok.decode(&ids), "manodado");
}

#[test]
fn encode_of_joined_texts_is_the_concatenation() {
    let tok = Tokenizer::new("hola mundo", 8192);
    let mut both = tok.encode("hola");
    both.extend(tok.encode("mal"));
    assert_eq!(tok.encode("hola mal"), both);
    assert_eq!(tok.encode("hola\nmal"), both);
    assert_eq!(tok.encode(""), Vec::<u32>::new());
    assert_eq!(tok.encode(" \n"), Vec::<u32>::new());
}

#[test]
fn every_word_gets_an_id() {
    let tok = Tokenizer::new("hola mundo", 8192);
    let text = "hola zzz mundo q";
    let ids = tok.encode(text);
    assert!(ids.len() >= tokenize(text).len());
}
