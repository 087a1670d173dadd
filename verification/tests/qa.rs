use pengui_redn::{extract_pairs, join_strings, question_prompt, strip_prefix, training_parts};

#[test]
fn extract_pairs_joins_answer_lines() {
    let text = "Pregunta: ¿Qué es X?\nRespuesta: Es algo.\nque sigue.\n\nPregunta: Otra\nRespuesta: Sí";
    assert_eq!(
        extract_pairs(text),
        vec![
            "Pregunta: ¿Qué es X? Respuesta: Es algo. que sigue.",
            "Pregunta: Otra Respuesta: Sí",
        ]
    );
}

#[test]
fn extract_pairs_trims_and_handles_crlf() {
    let text = "  Pregunta:   hola  \r\n\tRespuesta:  chau \r\n";
    assert_eq!(extract_pairs(text), vec!["Pregunta: hola Respuesta: chau"]);
}

#[test]
fn extract_pairs_ignores_answer_before_any_question() {
    let text = "Respuesta: huérfana\nPregunta: q\nRespuesta: a";
    assert_eq!(extract_pairs(text), vec!["Pregunta: q Respuesta: a"]);
}

#[test]
fn extract_pairs_keeps_a_question_without_answer() {
    assert_eq!(extract_pairs("Pregunta: sola"), vec!["Pregunta: sola Respuesta: "]);
}

#[test]
fn extract_pairs_ignores_lines_outside_answers() {
    let text = "texto\nPregunta: q\notra linea\nRespuesta: r";
    assert_eq!(extract_pairs(text), vec!["Pregunta: q Respuesta: r"]);
}

#[test]
fn extract_pairs_of_empty_text_is_empty() {
    assert_eq!(extract_pairs(""), Vec::<String>::new());
}

#[test]
fn one_pair_per_question_line() {
    let text = "Pregunta: a\nPregunta: b\nRespuesta: x\nPregunta: c\nrespuesta suelta";
    let pairs = extract_pairs(text);
    assert_eq!(pairs.len(), 3);
    assert_eq!(
        pairs,
        vec![
            "Pregunta: a Respuesta: ",
            "Pregunta: b Respuesta: x",
            "Pregunta: c Respuesta: ",
        ]
    );
}

#[test]
fn question_prompt_wraps_the_question() {
    assert_eq!(question_prompt("¿Qué es la literatura?"), "Pregunta: ¿Qué es la literatura? Respuesta:");
    assert_eq!(question_prompt(""), "Pregunta:  Respuesta:");
}

#[test]
fn strip_prefix_takes_the_rest_trimmed() {
    let prompt = "Pregunta: hola Respuesta:";
    assert_eq!(strip_prefix("Pregunta: hola Respuesta: bien ", prompt), "bien");
    assert_eq!(strip_prefix("  otra cosa ", prompt), "otra cosa");
    assert_eq!(strip_prefix("abc", ""), "abc");
    assert_eq!(strip_prefix("ab", "abc"), "ab");
}

#[test]
fn training_parts_repeats_the_pairs() {
    let texts = vec!["uno".to_string(), String::new(), "dos".to_string()];
    let pairs = vec!["p1".to_string(), "p2".to_string()];
    let parts = training_parts(&texts, &pairs, 2);
    assert_eq!(parts, vec!["uno", "dos", "p1\np2", "p1\np2"]);
    assert_eq!(join_strings(&parts, "\n\n"), "uno\n\ndos\n\np1\np2\n\np1\np2");
}

#[test]
fn training_parts_without_pairs() {
    let texts = vec!["uno".to_string(), "dos".to_string()];
    assert_eq!(training_parts(&texts, &Vec::new(), 5), vec!["uno", "dos"]);
    assert_eq!(training_parts(&Vec::new(), &vec!["p".to_string()], 0), Vec::<String>::new());
    assert_eq!(join_strings(&Vec::new(), "\n\n"), "");
}

#[test]
fn the_last_answer_line_of_a_block_wins() {
    let pairs = extract_pairs("Pregunta: a\nRespuesta: x\nmas\nRespuesta: y\n\n z \nPregunta: b\n");
    assert_eq!(pairs, vec!["Pregunta: a Respuesta: y z", "Pregunta: b Respuesta: "]);
}

#[test]
fn continuation_lines_of_an_empty_answer_line() {
    let pairs = extract_pairs("Pregunta: a\nRespuesta:\nuno\ndos");
    assert_eq!(pairs, vec!["Pregunta: a Respuesta: uno dos"]);
}
