use letters_game::ui_text::UIText;

#[test]
fn english_texts() {
    let t = UIText::english();
    assert_eq!(t.letter_game, "Letters Game");
    assert_eq!(t.tie, "Tie");
    assert_eq!(t.you_lose, "You have lost");
    assert_eq!(t.doesnt_exist, "The word does not exist in the dictionary");
    assert_eq!(t.cant_form, "The word cannot be built with the available letters");
    assert_eq!(t.play, "Play");
    assert_eq!(t.play_again, "Play again");
}

#[test]
fn spanish_texts() {
    let t = UIText::spanish();
    assert_eq!(t.letter_game, "Juego de Letras");
    assert_eq!(t.tie, "Empate");
    assert_eq!(t.you_lose, "Has perdido");
    assert_eq!(t.doesnt_exist, "La palabra no existe en el diccionario");
    assert_eq!(t.play, "Jugar");
    assert_eq!(t.play_again, "Jugar de nuevo");
}
