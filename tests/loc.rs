use codebiber::loc::{loc, Loc_To_Index_Error};

#[test]
fn loc_to_index() {
    assert_eq!(loc(0, 0).to_index(""), Ok(0));
    assert_eq!(loc(0, 0).to_index(" "), Ok(0));
    assert_eq!(loc(0, 1).to_index(" "), Ok(1));
    assert_eq!(loc(1, 0).to_index(" \n "), Ok(2));
    assert_eq!(loc(1, 1).to_index(" \n "), Ok(3));
    assert_eq!(loc(0, 1).to_index(" \n "), Ok(1));
    assert_eq!(loc(1, 0).to_index(""), Err(Loc_To_Index_Error::NOT_EXISTNIG_LINE));
    assert_eq!(loc(0, 1).to_index(""), Err(Loc_To_Index_Error::NOT_EXISTNIG_COLUMN));
    assert_eq!(loc(0, 2).to_index(" \n "), Err(Loc_To_Index_Error::NOT_EXISTNIG_COLUMN));
}
